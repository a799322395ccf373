//! What holds of every bitmap: how iteration, membership and size agree,
//! and the algebra of the set operations.

use vstd::prelude::*;
use crate::array::sym_diff;
use crate::elements::{increasing32, lemma_entries_seq};
use crate::roaring::RoaringBitmap;

verus! {

/// An iteration yields strictly increasing values, so none twice.
pub proof fn lemma_iteration_increasing(bitmap: RoaringBitmap)
    requires
        bitmap.wf(),
    ensures
        increasing32(bitmap.elements()),
        bitmap.elements().no_duplicates(),
{
    lemma_entries_seq(bitmap.entries());
}

/// The number of values is the number of values that an iteration yields.
pub proof fn lemma_len_counts_iteration(bitmap: RoaringBitmap)
    requires
        bitmap.wf(),
    ensures
        bitmap@.len() == bitmap.elements().len(),
{
    lemma_entries_seq(bitmap.entries());
    bitmap.elements().unique_seq_to_set();
}

/// A value is in the bitmap exactly if an iteration yields it.
pub proof fn lemma_contains_iff_iterated(bitmap: RoaringBitmap, value: u32)
    requires
        bitmap.wf(),
    ensures
        bitmap@.contains(value) <==> bitmap.elements().contains(value),
{
    lemma_entries_seq(bitmap.entries());
}

/// In every bitmap the keys of the containers strictly increase and no
/// container is empty.
pub proof fn lemma_containers_in_order(bitmap: RoaringBitmap, i: int, j: int)
    requires
        bitmap.wf(),
        0 <= i < j < bitmap.entries().len(),
    ensures
        bitmap.entries()[i].0 < bitmap.entries()[j].0,
        bitmap.entries()[i].1@.len() > 0,
        bitmap.entries()[j].1@.len() > 0,
{
    let cs = bitmap.entries();
    crate::array::lemma_u16_set_finite(cs[i].1@);
    crate::array::lemma_u16_set_finite(cs[j].1@);
    if cs[i].1@.len() == 0 {
        cs[i].1@.lemma_len0_is_empty();
        assert(cs[i].1@ =~= Set::<u16>::empty());
    }
    if cs[j].1@.len() == 0 {
        cs[j].1@.lemma_len0_is_empty();
        assert(cs[j].1@ =~= Set::<u16>::empty());
    }
}

/// A bitmap whose values are the union of the values of two others yields
/// in iteration exactly what either of the two yields.
pub proof fn lemma_union_by_iteration(
    a: RoaringBitmap,
    b: RoaringBitmap,
    result: RoaringBitmap,
    value: u32,
)
    requires
        a.wf(),
        b.wf(),
        result.wf(),
        result@ == a@.union(b@),
    ensures
        result.elements().contains(value) <==> (a.elements().contains(value)
            || b.elements().contains(value)),
{
    lemma_contains_iff_iterated(a, value);
    lemma_contains_iff_iterated(b, value);
    lemma_contains_iff_iterated(result, value);
}

/// A bitmap whose values are the intersection of the values of two others
/// yields in iteration exactly what both of the two yield.
pub proof fn lemma_intersection_by_iteration(
    a: RoaringBitmap,
    b: RoaringBitmap,
    result: RoaringBitmap,
    value: u32,
)
    requires
        a.wf(),
        b.wf(),
        result.wf(),
        result@ == a@.intersect(b@),
    ensures
        result.elements().contains(value) <==> (a.elements().contains(value)
            && b.elements().contains(value)),
{
    lemma_contains_iff_iterated(a, value);
    lemma_contains_iff_iterated(b, value);
    lemma_contains_iff_iterated(result, value);
}

/// A bitmap whose values are the difference of the values of two others
/// yields in iteration exactly what the first yields and the second does
/// not.
pub proof fn lemma_difference_by_iteration(
    a: RoaringBitmap,
    b: RoaringBitmap,
    result: RoaringBitmap,
    value: u32,
)
    requires
        a.wf(),
        b.wf(),
        result.wf(),
        result@ == a@.difference(b@),
    ensures
        result.elements().contains(value) <==> (a.elements().contains(value)
            && !b.elements().contains(value)),
{
    lemma_contains_iff_iterated(a, value);
    lemma_contains_iff_iterated(b, value);
    lemma_contains_iff_iterated(result, value);
}

/// A bitmap whose values are the symmetric difference of the values of two
/// others yields in iteration exactly what one of the two yields and the
/// other does not.
pub proof fn lemma_symmetric_difference_by_iteration(
    a: RoaringBitmap,
    b: RoaringBitmap,
    result: RoaringBitmap,
    value: u32,
)
    requires
        a.wf(),
        b.wf(),
        result.wf(),
        result@ == sym_diff(a@, b@),
    ensures
        result.elements().contains(value) <==> (a.elements().contains(value)
            != b.elements().contains(value)),
{
    lemma_contains_iff_iterated(a, value);
    lemma_contains_iff_iterated(b, value);
    lemma_contains_iff_iterated(result, value);
}

/// Union is commutative.
pub proof fn lemma_union_commutative(a: RoaringBitmap, b: RoaringBitmap)
    ensures
        a@.union(b@) == b@.union(a@),
{
    assert(a@.union(b@) =~= b@.union(a@));
}

/// Union is associative.
pub proof fn lemma_union_associative(a: RoaringBitmap, b: RoaringBitmap, c: RoaringBitmap)
    ensures
        a@.union(b@).union(c@) == a@.union(b@.union(c@)),
{
    assert(a@.union(b@).union(c@) =~= a@.union(b@.union(c@)));
}

/// Union is idempotent.
pub proof fn lemma_union_idempotent(a: RoaringBitmap)
    ensures
        a@.union(a@) == a@,
{
    assert(a@.union(a@) =~= a@);
}

/// Intersection is commutative.
pub proof fn lemma_intersection_commutative(a: RoaringBitmap, b: RoaringBitmap)
    ensures
        a@.intersect(b@) == b@.intersect(a@),
{
    assert(a@.intersect(b@) =~= b@.intersect(a@));
}

/// Intersection is associative.
pub proof fn lemma_intersection_associative(a: RoaringBitmap, b: RoaringBitmap, c: RoaringBitmap)
    ensures
        a@.intersect(b@).intersect(c@) == a@.intersect(b@.intersect(c@)),
{
    assert(a@.intersect(b@).intersect(c@) =~= a@.intersect(b@.intersect(c@)));
}

/// Intersection is idempotent.
pub proof fn lemma_intersection_idempotent(a: RoaringBitmap)
    ensures
        a@.intersect(a@) == a@,
{
    assert(a@.intersect(a@) =~= a@);
}

/// The difference of a bitmap with itself is empty.
pub proof fn lemma_difference_self(a: RoaringBitmap)
    ensures
        a@.difference(a@) == Set::<u32>::empty(),
{
    assert(a@.difference(a@) =~= Set::<u32>::empty());
}

/// Symmetric difference is commutative.
pub proof fn lemma_symmetric_difference_commutative(a: RoaringBitmap, b: RoaringBitmap)
    ensures
        sym_diff(a@, b@) == sym_diff(b@, a@),
{
    assert(sym_diff(a@, b@) =~= sym_diff(b@, a@));
}

/// The symmetric difference of a bitmap with itself is empty.
pub proof fn lemma_symmetric_difference_self(a: RoaringBitmap)
    ensures
        sym_diff(a@, a@) == Set::<u32>::empty(),
{
    assert(sym_diff(a@, a@) =~= Set::<u32>::empty());
}

} // verus!
