//! The forward links that an element of the ordered list carries: one per
//! level that the element takes part in, kept inline for up to four levels.

use vstd::prelude::*;
use smallvec::SmallVec;

verus! {

/// Link metadata to embed in every element of an ordered list: the forward
/// links of the element, one for each level it takes part in. A link is the
/// place of the next element at that level in the list's store, or absent
/// at the end of the level.
///
/// The links are held in a small vector of the `smallvec` crate, which
/// keeps up to four of them inline. The verifier does not look inside it:
/// what the node holds goes by the name `links_of`, and what the methods
/// below say of that name is taken from the crate's source, not proved.
#[verifier::external_body]
#[derive(Debug)]
pub struct SkipListNode {
    forward: SmallVec<[Option<usize>; 4]>,
}

/// The links that a node holds, first level first.
pub uninterp spec fn links_of(node: SkipListNode) -> Seq<Option<usize>>;

/// Largest number of links that one node may carry. Room for that many is
/// always within what an allocation may hold.
pub const LINK_LIMIT: usize = 0x0800_0000;

impl View for SkipListNode {
    type V = Seq<Option<usize>>;

    open spec fn view(&self) -> Seq<Option<usize>> {
        links_of(*self)
    }
}

impl Clone for SkipListNode {
    /// `Clone::clone` of smallvec's vector: a vector with copies of the
    /// items.
    #[verifier::external_body]
    fn clone(&self) -> (copy: Self)
        ensures
            links_of(copy) == links_of(*self),
    {
        SkipListNode { forward: self.forward.clone() }
    }
}

impl SkipListNode {
    /// A node without links; an insertion gives it the links it needs.
    /// This is `SmallVec::new` of smallvec: an empty vector.
    #[verifier::external_body]
    pub fn new() -> (node: Self)
        ensures
            links_of(node) == Seq::<Option<usize>>::empty(),
    {
        SkipListNode { forward: SmallVec::new() }
    }

    /// `Index::index` of smallvec's vector: the item at a position within
    /// the length.
    #[verifier::external_body]
    pub(crate) fn link(&self, level: usize) -> (link: Option<usize>)
        requires
            level < links_of(*self).len(),
        ensures
            link == links_of(*self)[level as int],
    {
        self.forward[level]
    }

    /// `IndexMut::index_mut` of smallvec's vector, used to store an item at
    /// a position within the length; the other items stay.
    #[verifier::external_body]
    pub(crate) fn set_link(&mut self, level: usize, link: Option<usize>)
        requires
            level < links_of(*old(self)).len(),
        ensures
            links_of(*final(self)) == links_of(*old(self)).update(level as int, link),
    {
        self.forward[level] = link;
    }

    /// `SmallVec::resize` of smallvec with an absent link as the value:
    /// truncates to `count` items, or appends absent links until there are
    /// `count`.
    #[verifier::external_body]
    pub(crate) fn resize(&mut self, count: usize)
        requires
            count <= LINK_LIMIT,
        ensures
            links_of(*final(self)).len() == count,
            forall|i: int|
                0 <= i < count ==> links_of(*final(self))[i] == if i < links_of(*old(self)).len() {
                    links_of(*old(self))[i]
                } else {
                    None
                },
    {
        self.forward.resize(count, None)
    }

    /// A node with room for the levels `0..=level`, every link absent.
    pub fn with_level(level: usize) -> (node: Self)
        requires
            level < LINK_LIMIT,
        ensures
            node@ == Seq::new((level + 1) as nat, |i: int| None::<usize>),
    {
        let mut node = Self::new();
        node.resize(level + 1);
        assert(node@ =~= Seq::new((level + 1) as nat, |i: int| None::<usize>));
        node
    }
}

impl Default for SkipListNode {
    fn default() -> (node: Self)
        ensures
            node@ == Seq::<Option<usize>>::empty(),
    {
        Self::new()
    }
}

} // verus!
