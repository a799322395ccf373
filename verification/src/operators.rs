//! Operator forms of the set algebra: `|`, `&`, `^`, `-` and their
//! assigning forms, each the same as the method it stands for.
//!
//! What an operator returns is stated by the `ensures` of its method here.
//! The spec functions that vstd asks for beside an operator are declared as
//! not binding (`obeys_.. == false`), since no spec function yields a bitmap
//! with its storage.

use vstd::prelude::*;
use vstd::std_specs::ops::{BitAndSpecImpl, BitOrSpecImpl, BitXorSpecImpl, SubSpecImpl};
use crate::array::sym_diff;
use crate::roaring::RoaringBitmap;

verus! {

impl<'a, 'b> BitOrSpecImpl<&'b RoaringBitmap> for &'a RoaringBitmap {
    open spec fn obeys_bitor_spec() -> bool {
        false
    }

    open spec fn bitor_req(self, rhs: &'b RoaringBitmap) -> bool {
        true
    }

    open spec fn bitor_spec(self, rhs: &'b RoaringBitmap) -> RoaringBitmap {
        arbitrary()
    }
}

impl<'a, 'b> core::ops::BitOr<&'b RoaringBitmap> for &'a RoaringBitmap {
    type Output = RoaringBitmap;

    /// `&a | &b` is `a.union(&b)`.
    fn bitor(self, rhs: &'b RoaringBitmap) -> (result: RoaringBitmap)
        ensures
            result.wf(),
            result@ == self@.union(rhs@),
    {
        self.union(rhs)
    }
}

impl<'b> BitOrSpecImpl<&'b RoaringBitmap> for RoaringBitmap {
    open spec fn obeys_bitor_spec() -> bool {
        false
    }

    open spec fn bitor_req(self, rhs: &'b RoaringBitmap) -> bool {
        true
    }

    open spec fn bitor_spec(self, rhs: &'b RoaringBitmap) -> RoaringBitmap {
        arbitrary()
    }
}

impl<'b> core::ops::BitOr<&'b RoaringBitmap> for RoaringBitmap {
    type Output = RoaringBitmap;

    /// `a | &b` is `a.union(&b)`.
    fn bitor(self, rhs: &'b RoaringBitmap) -> (result: RoaringBitmap)
        ensures
            result.wf(),
            result@ == self@.union(rhs@),
    {
        (&self).union(rhs)
    }
}

impl<'a> BitOrSpecImpl<RoaringBitmap> for &'a RoaringBitmap {
    open spec fn obeys_bitor_spec() -> bool {
        false
    }

    open spec fn bitor_req(self, rhs: RoaringBitmap) -> bool {
        true
    }

    open spec fn bitor_spec(self, rhs: RoaringBitmap) -> RoaringBitmap {
        arbitrary()
    }
}

impl<'a> core::ops::BitOr<RoaringBitmap> for &'a RoaringBitmap {
    type Output = RoaringBitmap;

    /// `&a | b` is `a.union(&b)`.
    fn bitor(self, rhs: RoaringBitmap) -> (result: RoaringBitmap)
        ensures
            result.wf(),
            result@ == self@.union(rhs@),
    {
        self.union(&rhs)
    }
}

impl<'b> core::ops::BitOrAssign<&'b RoaringBitmap> for RoaringBitmap {
    /// `a |= &b` is `a.union_with(&b)`.
    fn bitor_assign(&mut self, rhs: &'b RoaringBitmap)
        ensures
            final(self).wf(),
            final(self)@ == old(self)@.union(rhs@),
    {
        self.union_with(rhs);
    }
}

impl<'a, 'b> BitAndSpecImpl<&'b RoaringBitmap> for &'a RoaringBitmap {
    open spec fn obeys_bitand_spec() -> bool {
        false
    }

    open spec fn bitand_req(self, rhs: &'b RoaringBitmap) -> bool {
        true
    }

    open spec fn bitand_spec(self, rhs: &'b RoaringBitmap) -> RoaringBitmap {
        arbitrary()
    }
}

impl<'a, 'b> core::ops::BitAnd<&'b RoaringBitmap> for &'a RoaringBitmap {
    type Output = RoaringBitmap;

    /// `&a & &b` is `a.intersection(&b)`.
    fn bitand(self, rhs: &'b RoaringBitmap) -> (result: RoaringBitmap)
        ensures
            result.wf(),
            result@ == self@.intersect(rhs@),
    {
        self.intersection(rhs)
    }
}

impl<'b> BitAndSpecImpl<&'b RoaringBitmap> for RoaringBitmap {
    open spec fn obeys_bitand_spec() -> bool {
        false
    }

    open spec fn bitand_req(self, rhs: &'b RoaringBitmap) -> bool {
        true
    }

    open spec fn bitand_spec(self, rhs: &'b RoaringBitmap) -> RoaringBitmap {
        arbitrary()
    }
}

impl<'b> core::ops::BitAnd<&'b RoaringBitmap> for RoaringBitmap {
    type Output = RoaringBitmap;

    /// `a & &b` is `a.intersection(&b)`.
    fn bitand(self, rhs: &'b RoaringBitmap) -> (result: RoaringBitmap)
        ensures
            result.wf(),
            result@ == self@.intersect(rhs@),
    {
        (&self).intersection(rhs)
    }
}

impl<'a> BitAndSpecImpl<RoaringBitmap> for &'a RoaringBitmap {
    open spec fn obeys_bitand_spec() -> bool {
        false
    }

    open spec fn bitand_req(self, rhs: RoaringBitmap) -> bool {
        true
    }

    open spec fn bitand_spec(self, rhs: RoaringBitmap) -> RoaringBitmap {
        arbitrary()
    }
}

impl<'a> core::ops::BitAnd<RoaringBitmap> for &'a RoaringBitmap {
    type Output = RoaringBitmap;

    /// `&a & b` is `a.intersection(&b)`.
    fn bitand(self, rhs: RoaringBitmap) -> (result: RoaringBitmap)
        ensures
            result.wf(),
            result@ == self@.intersect(rhs@),
    {
        self.intersection(&rhs)
    }
}

impl<'b> core::ops::BitAndAssign<&'b RoaringBitmap> for RoaringBitmap {
    /// `a &= &b` is `a.intersect_with(&b)`.
    fn bitand_assign(&mut self, rhs: &'b RoaringBitmap)
        ensures
            final(self).wf(),
            final(self)@ == old(self)@.intersect(rhs@),
    {
        self.intersect_with(rhs);
    }
}

impl<'a, 'b> BitXorSpecImpl<&'b RoaringBitmap> for &'a RoaringBitmap {
    open spec fn obeys_bitxor_spec() -> bool {
        false
    }

    open spec fn bitxor_req(self, rhs: &'b RoaringBitmap) -> bool {
        true
    }

    open spec fn bitxor_spec(self, rhs: &'b RoaringBitmap) -> RoaringBitmap {
        arbitrary()
    }
}

impl<'a, 'b> core::ops::BitXor<&'b RoaringBitmap> for &'a RoaringBitmap {
    type Output = RoaringBitmap;

    /// `&a ^ &b` is `a.symmetric_difference(&b)`.
    fn bitxor(self, rhs: &'b RoaringBitmap) -> (result: RoaringBitmap)
        ensures
            result.wf(),
            result@ == sym_diff(self@, rhs@),
    {
        self.symmetric_difference(rhs)
    }
}

impl<'b> BitXorSpecImpl<&'b RoaringBitmap> for RoaringBitmap {
    open spec fn obeys_bitxor_spec() -> bool {
        false
    }

    open spec fn bitxor_req(self, rhs: &'b RoaringBitmap) -> bool {
        true
    }

    open spec fn bitxor_spec(self, rhs: &'b RoaringBitmap) -> RoaringBitmap {
        arbitrary()
    }
}

impl<'b> core::ops::BitXor<&'b RoaringBitmap> for RoaringBitmap {
    type Output = RoaringBitmap;

    /// `a ^ &b` is `a.symmetric_difference(&b)`.
    fn bitxor(self, rhs: &'b RoaringBitmap) -> (result: RoaringBitmap)
        ensures
            result.wf(),
            result@ == sym_diff(self@, rhs@),
    {
        (&self).symmetric_difference(rhs)
    }
}

impl<'a> BitXorSpecImpl<RoaringBitmap> for &'a RoaringBitmap {
    open spec fn obeys_bitxor_spec() -> bool {
        false
    }

    open spec fn bitxor_req(self, rhs: RoaringBitmap) -> bool {
        true
    }

    open spec fn bitxor_spec(self, rhs: RoaringBitmap) -> RoaringBitmap {
        arbitrary()
    }
}

impl<'a> core::ops::BitXor<RoaringBitmap> for &'a RoaringBitmap {
    type Output = RoaringBitmap;

    /// `&a ^ b` is `a.symmetric_difference(&b)`.
    fn bitxor(self, rhs: RoaringBitmap) -> (result: RoaringBitmap)
        ensures
            result.wf(),
            result@ == sym_diff(self@, rhs@),
    {
        self.symmetric_difference(&rhs)
    }
}

impl<'b> core::ops::BitXorAssign<&'b RoaringBitmap> for RoaringBitmap {
    /// `a ^= &b` is `a.symmetric_difference_with(&b)`.
    fn bitxor_assign(&mut self, rhs: &'b RoaringBitmap)
        ensures
            final(self).wf(),
            final(self)@ == sym_diff(old(self)@, rhs@),
    {
        self.symmetric_difference_with(rhs);
    }
}

impl<'a, 'b> SubSpecImpl<&'b RoaringBitmap> for &'a RoaringBitmap {
    open spec fn obeys_sub_spec() -> bool {
        false
    }

    open spec fn sub_req(self, rhs: &'b RoaringBitmap) -> bool {
        true
    }

    open spec fn sub_spec(self, rhs: &'b RoaringBitmap) -> RoaringBitmap {
        arbitrary()
    }
}

impl<'a, 'b> core::ops::Sub<&'b RoaringBitmap> for &'a RoaringBitmap {
    type Output = RoaringBitmap;

    /// `&a - &b` is `a.difference(&b)`.
    fn sub(self, rhs: &'b RoaringBitmap) -> (result: RoaringBitmap)
        ensures
            result.wf(),
            result@ == self@.difference(rhs@),
    {
        self.difference(rhs)
    }
}

impl<'b> SubSpecImpl<&'b RoaringBitmap> for RoaringBitmap {
    open spec fn obeys_sub_spec() -> bool {
        false
    }

    open spec fn sub_req(self, rhs: &'b RoaringBitmap) -> bool {
        true
    }

    open spec fn sub_spec(self, rhs: &'b RoaringBitmap) -> RoaringBitmap {
        arbitrary()
    }
}

impl<'b> core::ops::Sub<&'b RoaringBitmap> for RoaringBitmap {
    type Output = RoaringBitmap;

    /// `a - &b` is `a.difference(&b)`.
    fn sub(self, rhs: &'b RoaringBitmap) -> (result: RoaringBitmap)
        ensures
            result.wf(),
            result@ == self@.difference(rhs@),
    {
        (&self).difference(rhs)
    }
}

impl<'a> SubSpecImpl<RoaringBitmap> for &'a RoaringBitmap {
    open spec fn obeys_sub_spec() -> bool {
        false
    }

    open spec fn sub_req(self, rhs: RoaringBitmap) -> bool {
        true
    }

    open spec fn sub_spec(self, rhs: RoaringBitmap) -> RoaringBitmap {
        arbitrary()
    }
}

impl<'a> core::ops::Sub<RoaringBitmap> for &'a RoaringBitmap {
    type Output = RoaringBitmap;

    /// `&a - b` is `a.difference(&b)`.
    fn sub(self, rhs: RoaringBitmap) -> (result: RoaringBitmap)
        ensures
            result.wf(),
            result@ == self@.difference(rhs@),
    {
        self.difference(&rhs)
    }
}

impl<'b> core::ops::SubAssign<&'b RoaringBitmap> for RoaringBitmap {
    /// `a -= &b` is `a.difference_with(&b)`.
    fn sub_assign(&mut self, rhs: &'b RoaringBitmap)
        ensures
            final(self).wf(),
            final(self)@ == old(self)@.difference(rhs@),
    {
        self.difference_with(rhs);
    }
}

} // verus!
