//! The arena of nodes read as a tree: what a subtree holds, what a query
//! collects from it, and what shape the links between the slots have.

use vstd::prelude::*;
use vstd::multiset::Multiset;
use vstd::seq_lib::lemma_multiset_commutative;
use crate::aabb::Aabb;
use crate::hits::{lemma_matching_count, matching};
use crate::node::Node;
use crate::placement::{descends, in_bounds, lemma_quadrant_in_bounds, quadrant_of, reported};

verus! {

/// The slot of the first child of node `i`, or 0 where the node has no
/// children. Only a link that points forward, to a slot above `i`, is followed.
pub open spec fn first_child<T>(nodes: Seq<Node<T>>, i: int) -> int {
    match nodes[i].child_offset {
        Some(c) => c as int,
        None => 0,
    }
}

/// The number of slots from `i` to the end of the arena: what shrinks on the
/// way from a node to its children.
pub open spec fn rest<T>(nodes: Seq<Node<T>>, i: int) -> nat {
    if i < nodes.len() {
        (nodes.len() - i) as nat
    } else {
        0
    }
}

/// Every entry in the subtree of node `i`. A slot beyond the end of the
/// arena stands for an empty node.
pub open spec fn stored<T>(nodes: Seq<Node<T>>, i: int) -> Multiset<(Aabb, T)>
    decreases rest(nodes, i),
{
    if 0 <= i < nodes.len() {
        let own = nodes[i].items@.to_multiset();
        let c = first_child(nodes, i);
        if c > i {
            own.add(stored(nodes, c)).add(stored(nodes, c + 1)).add(stored(nodes, c + 2)).add(
                stored(nodes, c + 3),
            )
        } else {
            own
        }
    } else {
        Multiset::empty()
    }
}

/// What a query for `q` collects from the subtree of node `i`, which covers
/// `region`: the matches among the node's own entries, then those of each
/// child in turn whose doubled quadrant intersects `q`.
#[verifier::opaque]
pub open spec fn walk<T>(nodes: Seq<Node<T>>, i: int, region: Aabb, q: Aabb) -> Seq<(Aabb, T)>
    decreases rest(nodes, i),
{
    if 0 <= i < nodes.len() {
        let own = matching(nodes[i].items@, q);
        let c = first_child(nodes, i);
        if c > i {
            own + (if region.quadrant(0).loosened().intersects(q) {
                walk(nodes, c, region.quadrant(0), q)
            } else {
                Seq::empty()
            }) + (if region.quadrant(1).loosened().intersects(q) {
                walk(nodes, c + 1, region.quadrant(1), q)
            } else {
                Seq::empty()
            }) + (if region.quadrant(2).loosened().intersects(q) {
                walk(nodes, c + 2, region.quadrant(2), q)
            } else {
                Seq::empty()
            }) + (if region.quadrant(3).loosened().intersects(q) {
                walk(nodes, c + 3, region.quadrant(3), q)
            } else {
                Seq::empty()
            })
        } else {
            own
        }
    } else {
        Seq::empty()
    }
}

/// What a query for `q` collects from the child in slot `i` that covers
/// `quadrant`: nothing unless the doubled quadrant intersects `q`.
pub open spec fn branch<T>(nodes: Seq<Node<T>>, i: int, quadrant: Aabb, q: Aabb) -> Seq<(Aabb, T)> {
    if quadrant.loosened().intersects(q) {
        walk(nodes, i, quadrant, q)
    } else {
        Seq::empty()
    }
}

/// `walk` at a node, written out over its four children.
pub proof fn lemma_walk_unfold<T>(nodes: Seq<Node<T>>, i: int, region: Aabb, q: Aabb)
    requires
        0 <= i < nodes.len(),
    ensures
        first_child(nodes, i) > i ==> walk(nodes, i, region, q) == matching(nodes[i].items@, q)
            + branch(nodes, first_child(nodes, i), region.quadrant(0), q) + branch(
            nodes,
            first_child(nodes, i) + 1,
            region.quadrant(1),
            q,
        ) + branch(nodes, first_child(nodes, i) + 2, region.quadrant(2), q) + branch(
            nodes,
            first_child(nodes, i) + 3,
            region.quadrant(3),
            q,
        ),
        first_child(nodes, i) <= i ==> walk(nodes, i, region, q) == matching(nodes[i].items@, q),
{
    reveal(walk);
}

/// Nothing is collected from a slot beyond the end of the arena.
pub proof fn lemma_walk_outside<T>(nodes: Seq<Node<T>>, i: int, region: Aabb, q: Aabb)
    requires
        !(0 <= i < nodes.len()),
    ensures
        walk(nodes, i, region, q) == Seq::<(Aabb, T)>::empty(),
{
    reveal(walk);
}

/// Every entry of `m` comes to rest in `region`.
pub open spec fn rests<T>(m: Multiset<(Aabb, T)>, region: Aabb) -> bool {
    forall|e: (Aabb, T)| m.count(e) > 0 ==> !descends(region, e.0)
}

/// Every entry of `m` sinks from `region` into its quadrant `k`.
pub open spec fn routed<T>(m: Multiset<(Aabb, T)>, region: Aabb, k: int) -> bool {
    forall|e: (Aabb, T)| m.count(e) > 0 ==> descends(region, e.0) && quadrant_of(region, e.0) == k
}

/// Every entry in the subtree of node `i`, which covers `region`, is stored
/// where sinking from `region` brings it to rest.
pub open spec fn homed<T>(nodes: Seq<Node<T>>, i: int, region: Aabb) -> bool
    decreases rest(nodes, i),
{
    if 0 <= i < nodes.len() {
        &&& rests(nodes[i].items@.to_multiset(), region)
        &&& first_child(nodes, i) > i ==> {
            let c = first_child(nodes, i);
            {
                &&& homed(nodes, c, region.quadrant(0))
                &&& homed(nodes, c + 1, region.quadrant(1))
                &&& homed(nodes, c + 2, region.quadrant(2))
                &&& homed(nodes, c + 3, region.quadrant(3))
                &&& routed(stored(nodes, c), region, 0)
                &&& routed(stored(nodes, c + 1), region, 1)
                &&& routed(stored(nodes, c + 2), region, 2)
                &&& routed(stored(nodes, c + 3), region, 3)
            }
        }
    } else {
        true
    }
}

/// Node `j` lies in the subtree of node `i`.
pub open spec fn reach<T>(nodes: Seq<Node<T>>, i: int, j: int) -> bool
    decreases rest(nodes, i),
{
    if 0 <= i < nodes.len() {
        let c = first_child(nodes, i);
        i == j || (c > i && (reach(nodes, c, j) || reach(nodes, c + 1, j) || reach(nodes, c + 2, j)
            || reach(nodes, c + 3, j)))
    } else {
        false
    }
}

/// What a query collects from a subtree, counted entry by entry: an entry
/// that the query reports is collected as often as the subtree stores it, and
/// any other entry not at all.
pub proof fn lemma_walk_count<T>(nodes: Seq<Node<T>>, i: int, region: Aabb, q: Aabb, e: (Aabb, T))
    requires
        in_bounds(region),
        homed(nodes, i, region),
    ensures
        walk(nodes, i, region, q).to_multiset().count(e) == if reported(region, e.0, q) {
            stored(nodes, i).count(e)
        } else {
            0
        },
    decreases rest(nodes, i),
{
    let none = Seq::<(Aabb, T)>::empty();
    assert(none.to_multiset().count(e) == 0) by {
        none.to_multiset_ensures();
    }
    if 0 <= i < nodes.len() {
        let own = matching(nodes[i].items@, q);
        lemma_matching_count(nodes[i].items@, q, e);
        lemma_walk_unfold(nodes, i, region, q);
        let c = first_child(nodes, i);
        if c > i {
            lemma_quadrant_in_bounds(region, 0);
            lemma_quadrant_in_bounds(region, 1);
            lemma_quadrant_in_bounds(region, 2);
            lemma_quadrant_in_bounds(region, 3);
            lemma_walk_count(nodes, c, region.quadrant(0), q, e);
            lemma_walk_count(nodes, c + 1, region.quadrant(1), q, e);
            lemma_walk_count(nodes, c + 2, region.quadrant(2), q, e);
            lemma_walk_count(nodes, c + 3, region.quadrant(3), q, e);
            let b0 = branch(nodes, c, region.quadrant(0), q);
            let b1 = branch(nodes, c + 1, region.quadrant(1), q);
            let b2 = branch(nodes, c + 2, region.quadrant(2), q);
            let b3 = branch(nodes, c + 3, region.quadrant(3), q);
            lemma_multiset_commutative(own, b0);
            lemma_multiset_commutative(own + b0, b1);
            lemma_multiset_commutative(own + b0 + b1, b2);
            lemma_multiset_commutative(own + b0 + b1 + b2, b3);
            assert(walk(nodes, i, region, q).to_multiset().count(e) == own.to_multiset().count(e)
                + b0.to_multiset().count(e) + b1.to_multiset().count(e) + b2.to_multiset().count(e)
                + b3.to_multiset().count(e));
            assert(stored(nodes, i).count(e) == nodes[i].items@.to_multiset().count(e) + stored(
                nodes,
                c,
            ).count(e) + stored(nodes, c + 1).count(e) + stored(nodes, c + 2).count(e) + stored(
                nodes,
                c + 3,
            ).count(e));
        }
    } else {
        lemma_walk_outside(nodes, i, region, q);
    }
}

/// The node holds no entry and has no children.
pub open spec fn blank<T>(node: Node<T>) -> bool {
    node.items@.len() == 0 && node.child_offset.is_none()
}

/// Every link points forward to the start of a block of four slots below
/// `next_free`. Blocks start at slots 1, 5, 9 and so on.
pub open spec fn forward<T>(nodes: Seq<Node<T>>, next_free: int) -> bool {
    forall|i: int|
        0 <= i < nodes.len() ==> match (#[trigger] nodes[i]).child_offset {
            Some(c) => i < c && c % 4 == 1 && c + 4 <= next_free,
            None => true,
        }
}

/// No block of children has two parents.
#[verifier::opaque]
pub open spec fn single_parent<T>(nodes: Seq<Node<T>>) -> bool {
    forall|i: int, j: int|
        0 <= i < nodes.len() && 0 <= j < nodes.len() && i != j && (
        #[trigger] nodes[i]).child_offset.is_some() ==> nodes[i].child_offset != (
        #[trigger] nodes[j]).child_offset
}

/// A child is blank or of its parent's generation.
#[verifier::opaque]
pub open spec fn generations_agree<T>(nodes: Seq<Node<T>>) -> bool {
    forall|i: int, n: int|
        0 <= i < nodes.len() && 0 <= n < nodes.len() && (#[trigger] nodes[i]).child_offset.is_some()
            && nodes[i].child_offset.unwrap() <= n < nodes[i].child_offset.unwrap() + 4 ==> blank(
            #[trigger] nodes[n],
        ) || nodes[n].seq == nodes[i].seq
}

/// Every stored box is valid.
pub open spec fn boxes_valid<T>(nodes: Seq<Node<T>>) -> bool {
    forall|i: int, k: int|
        0 <= i < nodes.len() && 0 <= k < nodes[i].items@.len() ==> (
        #[trigger] nodes[i].items@[k]).0.valid()
}

/// Every entry of a subtree has a valid box.
pub proof fn lemma_stored_valid<T>(nodes: Seq<Node<T>>, i: int, e: (Aabb, T))
    requires
        boxes_valid(nodes),
        stored(nodes, i).count(e) > 0,
    ensures
        e.0.valid(),
    decreases rest(nodes, i),
{
    if 0 <= i < nodes.len() {
        let c = first_child(nodes, i);
        if nodes[i].items@.to_multiset().count(e) > 0 {
            nodes[i].items@.to_multiset_ensures();
            let k = choose|k: int| 0 <= k < nodes[i].items@.len() && nodes[i].items@[k] == e;
            assert(nodes[i].items@[k].0.valid());
        } else if stored(nodes, c).count(e) > 0 {
            lemma_stored_valid(nodes, c, e);
        } else if stored(nodes, c + 1).count(e) > 0 {
            lemma_stored_valid(nodes, c + 1, e);
        } else if stored(nodes, c + 2).count(e) > 0 {
            lemma_stored_valid(nodes, c + 2, e);
        } else {
            lemma_stored_valid(nodes, c + 3, e);
        }
    }
}

/// The shape of the arena: slots are handed out in blocks of four from slot 1
/// on, and the links between them make a forest.
pub open spec fn linked<T>(nodes: Seq<Node<T>>, next_free: int) -> bool {
    &&& 1 <= nodes.len() <= next_free
    &&& next_free % 4 == 1
    &&& forward(nodes, next_free)
    &&& single_parent(nodes)
    &&& generations_agree(nodes)
    &&& boxes_valid(nodes)
}

} // verus!
