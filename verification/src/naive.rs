//! A linear scan over every stored box: the plain answer that a faster index
//! has to agree with.

use vstd::prelude::*;
use crate::aabb::{Aabb, Vec2};
use crate::hits::{entries, matching, push_matching};

verus! {

/// Every inserted entry, in insertion order.
pub struct NaiveCollisionDetection<T> {
    items: Vec<(Aabb, T)>,
}

impl<T> View for NaiveCollisionDetection<T> {
    type V = Seq<(Aabb, T)>;

    /// The entries in the order in which they were inserted.
    closed spec fn view(&self) -> Seq<(Aabb, T)> {
        self.items@
    }
}

impl<T> NaiveCollisionDetection<T> {
    /// Every stored box is valid.
    pub open spec fn wf(&self) -> bool {
        forall|i: int| 0 <= i < self@.len() ==> (#[trigger] self@[i]).0.valid()
    }

    /// An empty index. The world size plays no part in a linear scan.
    pub fn new(_size: Vec2) -> (index: Self)
        ensures
            index@ == Seq::<(Aabb, T)>::empty(),
            index.wf(),
    {
        NaiveCollisionDetection { items: Vec::new() }
    }

    /// Appends an entry.
    pub fn insert(&mut self, aabb: Aabb, t: T)
        requires
            old(self).wf(),
            aabb.valid(),
        ensures
            final(self)@ == old(self)@.push((aabb, t)),
            final(self).wf(),
    {
        self.items.push((aabb, t));
        proof {
            assert forall|i: int| 0 <= i < self@.len() implies (#[trigger] self@[i]).0.valid() by {
                if i < old(self)@.len() {
                    assert(self@[i] == old(self)@[i]);
                }
            }
        }
    }

    /// Forgets every entry.
    pub fn clear(&mut self)
        ensures
            final(self)@ == Seq::<(Aabb, T)>::empty(),
            final(self).wf(),
    {
        self.items.clear();
    }

    /// The entries whose box intersects `aabb`, in insertion order.
    pub fn for_each_intersection(&self, aabb: &Aabb) -> (hits: Vec<&(Aabb, T)>)
        requires
            self.wf(),
            aabb.valid(),
        ensures
            entries(hits@) == matching(self@, *aabb),
    {
        let mut hits: Vec<&(Aabb, T)> = Vec::new();
        proof {
            assert(entries(hits@) =~= Seq::<(Aabb, T)>::empty());
            assert(entries(hits@) + matching(self@, *aabb) =~= matching(self@, *aabb));
        }
        push_matching(&self.items, aabb, &mut hits);
        hits
    }
}

} // verus!
