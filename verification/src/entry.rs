//! What an element must offer to be kept in an ordered list.

use vstd::prelude::*;
use crate::links::SkipListNode;

verus! {

/// An element of an ordered list: it has a key, and it carries the list's
/// link metadata in a node of its own.
///
/// While an element is in a list, only the list changes its node, and its
/// key does not change.
pub trait SkipListEntry {
    /// The key type, by which elements are ordered.
    type Key: Ord;

    /// The element's key. An implementation that is verified says here
    /// what the key is; one that is not leaves it as it stands.
    open spec fn key_view(&self) -> Self::Key {
        arbitrary()
    }

    /// The element's embedded node. An implementation that is verified says
    /// here what the node is; one that is not leaves it as it stands.
    open spec fn node_view(&self) -> SkipListNode {
        arbitrary()
    }

    /// A reference to the element's key.
    fn key(&self) -> (key: &Self::Key)
        ensures
            *key == self.key_view(),
    ;

    /// A reference to the embedded node.
    fn skiplist_node(&self) -> (node: &SkipListNode)
        ensures
            *node == self.node_view(),
    ;

    /// A mutable reference to the embedded node. What is written through it
    /// becomes the element's node; the key stays.
    fn skiplist_node_mut(&mut self) -> (node: &mut SkipListNode)
        ensures
            *node == old(self).node_view(),
            final(self).node_view() == *final(node),
            final(self).key_view() == old(self).key_view(),
    ;
}

} // verus!
