//! A node of the tree.

use vstd::prelude::*;
use crate::aabb::Aabb;

verus! {

/// One node of the tree.
#[derive(Debug, Clone)]
pub struct Node<T> {
    /// The entries that came to rest at this node, oldest first.
    pub items: Vec<(Aabb, T)>,
    /// The slot of the first of the four children, once they are allocated.
    pub child_offset: Option<usize>,
    /// The generation of the tree in which this node was last reset.
    pub seq: u64,
}

impl<T> Default for Node<T> {
    fn default() -> (node: Self)
        ensures
            node.items@.len() == 0,
            node.child_offset.is_none(),
            node.seq == 0,
    {
        Node { items: Vec::new(), child_offset: None, seq: 0 }
    }
}

impl<T> Node<T> {
    /// Empties the node and stamps it with the generation `seq`.
    pub fn reuse(&mut self, seq: u64)
        ensures
            final(self).items@.len() == 0,
            final(self).child_offset.is_none(),
            final(self).seq == seq,
    {
        self.items.clear();
        self.child_offset = None;
        self.seq = seq;
    }
}

} // verus!
