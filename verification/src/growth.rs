//! What a change to the arena leaves alone: slots that are added or linked in
//! change nothing of what the tree holds or a query collects, and a change to
//! one node changes nothing of the subtrees that do not hold it.

use vstd::prelude::*;
use vstd::multiset::Multiset;
use crate::aabb::Aabb;
use crate::arena::{
    first_child, homed, lemma_walk_outside, lemma_walk_unfold, reach, rest, stored, walk,
};
use crate::hits::lemma_matching_empty;
use crate::node::Node;

verus! {

/// A subtree holds only slots from its root upwards.
pub proof fn lemma_reach_forward<T>(nodes: Seq<Node<T>>, i: int, j: int)
    requires
        reach(nodes, i, j),
    ensures
        i <= j,
    decreases rest(nodes, i),
{
    if i != j {
        let c = first_child(nodes, i);
        if reach(nodes, c, j) {
            lemma_reach_forward(nodes, c, j);
        } else if reach(nodes, c + 1, j) {
            lemma_reach_forward(nodes, c + 1, j);
        } else if reach(nodes, c + 2, j) {
            lemma_reach_forward(nodes, c + 2, j);
        } else {
            lemma_reach_forward(nodes, c + 3, j);
        }
    }
}

/// `after` is `before` with entries added to node `j` and nothing else
/// changed.
pub open spec fn differs_at<T>(before: Seq<Node<T>>, after: Seq<Node<T>>, j: int) -> bool {
    &&& after.len() == before.len()
    &&& forall|n: int|
        0 <= n < before.len() ==> (#[trigger] after[n]).child_offset == before[n].child_offset
    &&& forall|n: int| 0 <= n < before.len() && n != j ==> (#[trigger] after[n]).items@ == before[n].items@
}

/// A change to the entries of node `j` leaves every subtree alone that does
/// not hold `j`.
pub proof fn lemma_push_elsewhere<T>(
    before: Seq<Node<T>>,
    after: Seq<Node<T>>,
    j: int,
    i: int,
    region: Aabb,
)
    requires
        differs_at(before, after, j),
        !reach(before, i, j),
    ensures
        stored(after, i) == stored(before, i),
        homed(after, i, region) == homed(before, i, region),
    decreases rest(before, i),
{
    if 0 <= i < before.len() {
        let c = first_child(before, i);
        assert(first_child(after, i) == c);
        assert(after[i].items@ == before[i].items@);
        if c > i {
            lemma_push_elsewhere(before, after, j, c, region.quadrant(0));
            lemma_push_elsewhere(before, after, j, c + 1, region.quadrant(1));
            lemma_push_elsewhere(before, after, j, c + 2, region.quadrant(2));
            lemma_push_elsewhere(before, after, j, c + 3, region.quadrant(3));
        }
    }
}

/// `after` is `before` with slots added or linked in: every node keeps its
/// entries, a node keeps its children or gets some among the new slots, and
/// the new slots hold no entry.
pub open spec fn grown<T>(before: Seq<Node<T>>, after: Seq<Node<T>>) -> bool {
    &&& before.len() <= after.len()
    &&& forall|n: int|
        0 <= n < before.len() ==> (#[trigger] after[n]).items@ == before[n].items@
    &&& forall|n: int|
        0 <= n < before.len() ==> (#[trigger] after[n]).child_offset == before[n].child_offset || (
        before[n].child_offset.is_none() && first_child(after, n) >= before.len())
    &&& forall|n: int| before.len() <= n < after.len() ==> (#[trigger] after[n]).items@.len() == 0
}

/// Slots that are added or linked in change neither what a subtree holds nor
/// whether its entries are where they belong.
pub proof fn lemma_grown<T>(before: Seq<Node<T>>, after: Seq<Node<T>>, i: int, region: Aabb)
    requires
        grown(before, after),
    ensures
        stored(after, i) == stored(before, i),
        homed(after, i, region) == homed(before, i, region),
    decreases rest(after, i),
{
    if 0 <= i < after.len() {
        let c = first_child(after, i);
        if c > i {
            lemma_grown(before, after, c, region.quadrant(0));
            lemma_grown(before, after, c + 1, region.quadrant(1));
            lemma_grown(before, after, c + 2, region.quadrant(2));
            lemma_grown(before, after, c + 3, region.quadrant(3));
        }
        if i >= before.len() {
            assert(after[i].items@ =~= Seq::<(Aabb, T)>::empty());
            assert(after[i].items@.to_multiset() =~= Multiset::<(Aabb, T)>::empty()) by {
                after[i].items@.to_multiset_ensures();
            }
            assert(stored(after, i) =~= Multiset::<(Aabb, T)>::empty());
        } else {
            assert(after[i].items@ == before[i].items@);
            if after[i].child_offset != before[i].child_offset {
                assert(stored(after, i) =~= stored(before, i));
            }
        }
    }
}

/// A change to the entries of node `j` leaves alone what a query collects
/// from a subtree that does not hold `j`.
pub proof fn lemma_push_elsewhere_walk<T>(
    before: Seq<Node<T>>,
    after: Seq<Node<T>>,
    j: int,
    i: int,
    region: Aabb,
    q: Aabb,
)
    requires
        differs_at(before, after, j),
        !reach(before, i, j),
    ensures
        walk(after, i, region, q) == walk(before, i, region, q),
    decreases rest(before, i),
{
    if 0 <= i < before.len() {
        let c = first_child(before, i);
        assert(first_child(after, i) == c);
        assert(after[i].items@ == before[i].items@);
        lemma_walk_unfold(before, i, region, q);
        lemma_walk_unfold(after, i, region, q);
        if c > i {
            lemma_push_elsewhere_walk(before, after, j, c, region.quadrant(0), q);
            lemma_push_elsewhere_walk(before, after, j, c + 1, region.quadrant(1), q);
            lemma_push_elsewhere_walk(before, after, j, c + 2, region.quadrant(2), q);
            lemma_push_elsewhere_walk(before, after, j, c + 3, region.quadrant(3), q);
        }
    } else {
        lemma_walk_outside(before, i, region, q);
        lemma_walk_outside(after, i, region, q);
    }
}

/// Slots that are added or linked in do not change what a query collects.
pub proof fn lemma_grown_walk<T>(
    before: Seq<Node<T>>,
    after: Seq<Node<T>>,
    i: int,
    region: Aabb,
    q: Aabb,
)
    requires
        grown(before, after),
    ensures
        walk(after, i, region, q) == walk(before, i, region, q),
    decreases rest(after, i),
{
    let none = Seq::<(Aabb, T)>::empty();
    if 0 <= i < after.len() {
        let c = first_child(after, i);
        lemma_walk_unfold(after, i, region, q);
        if c > i {
            lemma_grown_walk(before, after, c, region.quadrant(0), q);
            lemma_grown_walk(before, after, c + 1, region.quadrant(1), q);
            lemma_grown_walk(before, after, c + 2, region.quadrant(2), q);
            lemma_grown_walk(before, after, c + 3, region.quadrant(3), q);
        }
        if i >= before.len() {
            lemma_walk_outside(before, i, region, q);
            assert(after[i].items@ =~= none);
            lemma_matching_empty::<T>(q);
            if c > i {
                lemma_walk_outside(before, c, region.quadrant(0), q);
                lemma_walk_outside(before, c + 1, region.quadrant(1), q);
                lemma_walk_outside(before, c + 2, region.quadrant(2), q);
                lemma_walk_outside(before, c + 3, region.quadrant(3), q);
            }
            assert(walk(after, i, region, q) =~= none);
        } else {
            lemma_walk_unfold(before, i, region, q);
            assert(after[i].items@ == before[i].items@);
            if after[i].child_offset != before[i].child_offset {
                lemma_walk_outside(before, c, region.quadrant(0), q);
                lemma_walk_outside(before, c + 1, region.quadrant(1), q);
                lemma_walk_outside(before, c + 2, region.quadrant(2), q);
                lemma_walk_outside(before, c + 3, region.quadrant(3), q);
                assert(walk(after, i, region, q) =~= walk(before, i, region, q));
            }
        }
    } else {
        lemma_walk_outside(before, i, region, q);
        lemma_walk_outside(after, i, region, q);
    }
}

} // verus!
