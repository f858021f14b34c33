//! The way an entry takes from the root to the node where it comes to rest,
//! and what pushing it there does to the subtrees on and off that way.

use vstd::prelude::*;
use crate::aabb::Aabb;
use crate::arena::{
    branch, first_child, homed, lemma_walk_unfold, linked, reach, rest, single_parent, stored,
    walk,
};
use crate::hits::{lemma_insert_left, lemma_insert_right, lemma_matching_push, matching};
use crate::growth::{
    differs_at, lemma_push_elsewhere, lemma_push_elsewhere_walk, lemma_reach_forward,
};
use crate::node::Node;
use crate::placement::{
    descends, in_bounds, lemma_quadrant_in_bounds, lemma_reported_step, quadrant_of, reported,
};

verus! {

/// Step `s` of the way: the box sinks from node `path[s]`, which covers
/// `regs[s]`, into the child `path[s + 1]`, which covers `regs[s + 1]`.
pub open spec fn step<T>(
    nodes: Seq<Node<T>>,
    path: Seq<int>,
    regs: Seq<Aabb>,
    aabb: Aabb,
    s: int,
) -> bool {
    &&& 0 <= path[s] < nodes.len()
    &&& descends(regs[s], aabb)
    &&& first_child(nodes, path[s]) > path[s]
    &&& path[s + 1] == first_child(nodes, path[s]) + quadrant_of(regs[s], aabb)
    &&& regs[s + 1] == regs[s].quadrant(quadrant_of(regs[s], aabb))
}

/// `path` is the way that `aabb` takes down from the root, and `regs` holds
/// the region of each node on it.
pub open spec fn trail<T>(nodes: Seq<Node<T>>, path: Seq<int>, regs: Seq<Aabb>, aabb: Aabb) -> bool {
    &&& path.len() == regs.len()
    &&& path.len() >= 1
    &&& path[0] == 0
    &&& forall|s: int| 0 <= s < path.len() - 1 ==> #[trigger] step(nodes, path, regs, aabb, s)
}

/// The slots on the way rise.
pub proof fn lemma_trail_rises<T>(
    nodes: Seq<Node<T>>,
    path: Seq<int>,
    regs: Seq<Aabb>,
    aabb: Aabb,
    s: int,
    t: int,
)
    requires
        trail(nodes, path, regs, aabb),
        0 <= s < t < path.len(),
    ensures
        path[s] < path[t],
    decreases t - s,
{
    assert(step(nodes, path, regs, aabb, t - 1));
    if s < t - 1 {
        lemma_trail_rises(nodes, path, regs, aabb, s, t - 1);
    }
}

/// A node whose subtree holds the end of the way lies on the way.
pub proof fn lemma_reach_on_trail<T>(
    nodes: Seq<Node<T>>,
    next_free: int,
    path: Seq<int>,
    regs: Seq<Aabb>,
    aabb: Aabb,
    i: int,
) -> (s: int)
    requires
        linked(nodes, next_free),
        trail(nodes, path, regs, aabb),
        reach(nodes, i, path.last()),
    ensures
        0 <= s < path.len(),
        path[s] == i,
    decreases rest(nodes, i),
{
    let j = path.last();
    if i == j {
        path.len() - 1
    } else {
        let c = first_child(nodes, i);
        let k: int = if reach(nodes, c, j) {
            0
        } else if reach(nodes, c + 1, j) {
            1
        } else if reach(nodes, c + 2, j) {
            2
        } else {
            3
        };
        let r = lemma_reach_on_trail(nodes, next_free, path, regs, aabb, c + k);
        assert(step(nodes, path, regs, aabb, r - 1));
        let above = path[r - 1];
        assert(nodes[above].child_offset.is_some());
        assert(nodes[i].child_offset.is_some());
        assert(first_child(nodes, above) == c);
        assert(above == i) by {
            reveal(single_parent);
        }
        r - 1
    }
}

/// A child next to the way holds no node of the way below it.
pub proof fn lemma_beside_trail<T>(
    nodes: Seq<Node<T>>,
    next_free: int,
    path: Seq<int>,
    regs: Seq<Aabb>,
    aabb: Aabb,
    s: int,
    k: int,
)
    requires
        linked(nodes, next_free),
        trail(nodes, path, regs, aabb),
        0 <= s < path.len() - 1,
        0 <= k < 4,
        k != quadrant_of(regs[s], aabb),
    ensures
        !reach(nodes, first_child(nodes, path[s]) + k, path.last()),
{
    let c = first_child(nodes, path[s]);
    assert(step(nodes, path, regs, aabb, s));
    if reach(nodes, c + k, path.last()) {
        let r = lemma_reach_on_trail(nodes, next_free, path, regs, aabb, c + k);
        assert(step(nodes, path, regs, aabb, r - 1));
        let above = path[r - 1];
        assert(nodes[above].child_offset.is_some());
        assert(nodes[path[s]].child_offset.is_some());
        assert(first_child(nodes, above) == c);
        assert(above == path[s]) by {
            reveal(single_parent);
        }
        if r - 1 < s {
            lemma_trail_rises(nodes, path, regs, aabb, r - 1, s);
        } else if s < r - 1 {
            lemma_trail_rises(nodes, path, regs, aabb, s, r - 1);
        }
        assert(false);
    }
}

/// Pushing an entry at the end of its way adds it to the subtree of every
/// node on the way, and leaves every entry where it belongs.
pub proof fn lemma_push_on_trail<T>(
    before: Seq<Node<T>>,
    after: Seq<Node<T>>,
    next_free: int,
    path: Seq<int>,
    regs: Seq<Aabb>,
    e: (Aabb, T),
    s: int,
)
    requires
        linked(before, next_free),
        trail(before, path, regs, e.0),
        0 <= path.last() < before.len(),
        !descends(regs.last(), e.0),
        differs_at(before, after, path.last()),
        after[path.last()].items@ == before[path.last()].items@.push(e),
        0 <= s < path.len(),
        homed(before, path[s], regs[s]),
    ensures
        stored(after, path[s]) == stored(before, path[s]).insert(e),
        homed(after, path[s], regs[s]),
    decreases path.len() - s,
{
    broadcast use vstd::seq_lib::group_to_multiset_ensures;

    let j = path.last();
    let p = path[s];
    let region = regs[s];
    let c = first_child(before, p);
    if s == path.len() - 1 {
        if c > p {
            assert forall|n: int| n > j implies !#[trigger] reach(before, n, j) by {
                if reach(before, n, j) {
                    lemma_reach_forward(before, n, j);
                }
            }
            lemma_push_elsewhere(before, after, j, c, region.quadrant(0));
            lemma_push_elsewhere(before, after, j, c + 1, region.quadrant(1));
            lemma_push_elsewhere(before, after, j, c + 2, region.quadrant(2));
            lemma_push_elsewhere(before, after, j, c + 3, region.quadrant(3));
        }
        assert(stored(after, p) =~= stored(before, p).insert(e));
    } else {
        assert(step(before, path, regs, e.0, s));
        lemma_trail_rises(before, path, regs, e.0, s, path.len() - 1);
        let ks = quadrant_of(region, e.0);
        lemma_push_on_trail(before, after, next_free, path, regs, e, s + 1);
        if ks != 0 {
            lemma_beside_trail(before, next_free, path, regs, e.0, s, 0);
            lemma_push_elsewhere(before, after, j, c, region.quadrant(0));
        }
        if ks != 1 {
            lemma_beside_trail(before, next_free, path, regs, e.0, s, 1);
            lemma_push_elsewhere(before, after, j, c + 1, region.quadrant(1));
        }
        if ks != 2 {
            lemma_beside_trail(before, next_free, path, regs, e.0, s, 2);
            lemma_push_elsewhere(before, after, j, c + 2, region.quadrant(2));
        }
        if ks != 3 {
            lemma_beside_trail(before, next_free, path, regs, e.0, s, 3);
            lemma_push_elsewhere(before, after, j, c + 3, region.quadrant(3));
        }
        assert(after[p].items@ == before[p].items@);
        assert(stored(after, p) =~= stored(before, p).insert(e));
    }
}

/// What a query collects from node `j` after an entry was pushed there: the
/// entry is put in behind the node's own matches if it intersects the query.
pub proof fn lemma_walk_pushed_here<T>(
    before: Seq<Node<T>>,
    after: Seq<Node<T>>,
    j: int,
    region: Aabb,
    e: (Aabb, T),
    q: Aabb,
)
    requires
        0 <= j < before.len(),
        differs_at(before, after, j),
        after[j].items@ == before[j].items@.push(e),
    ensures
        e.0.intersects(q) ==> walk(after, j, region, q) == walk(before, j, region, q).insert(
            matching(before[j].items@, q).len() as int,
            e,
        ),
        !e.0.intersects(q) ==> walk(after, j, region, q) == walk(before, j, region, q),
        matching(before[j].items@, q).len() <= walk(before, j, region, q).len(),
{
    let c = first_child(before, j);
    let own = matching(before[j].items@, q);
    assert(first_child(after, j) == c);
    lemma_walk_unfold(before, j, region, q);
    lemma_walk_unfold(after, j, region, q);
    lemma_matching_push(before[j].items@, e, q);
    if c > j {
        assert forall|n: int| n > j implies !#[trigger] reach(before, n, j) by {
            if reach(before, n, j) {
                lemma_reach_forward(before, n, j);
            }
        }
        lemma_push_elsewhere_walk(before, after, j, c, region.quadrant(0), q);
        lemma_push_elsewhere_walk(before, after, j, c + 1, region.quadrant(1), q);
        lemma_push_elsewhere_walk(before, after, j, c + 2, region.quadrant(2), q);
        lemma_push_elsewhere_walk(before, after, j, c + 3, region.quadrant(3), q);
        let b0 = branch(before, c, region.quadrant(0), q);
        let b1 = branch(before, c + 1, region.quadrant(1), q);
        let b2 = branch(before, c + 2, region.quadrant(2), q);
        let b3 = branch(before, c + 3, region.quadrant(3), q);
        assert(branch(after, c, region.quadrant(0), q) == b0);
        assert(branch(after, c + 1, region.quadrant(1), q) == b1);
        assert(branch(after, c + 2, region.quadrant(2), q) == b2);
        assert(branch(after, c + 3, region.quadrant(3), q) == b3);
        if e.0.intersects(q) {
            assert(own.push(e) =~= own.insert(own.len() as int, e));
            lemma_insert_left(own, b0, own.len() as int, e);
            lemma_insert_left(own + b0, b1, own.len() as int, e);
            lemma_insert_left(own + b0 + b1, b2, own.len() as int, e);
            lemma_insert_left(own + b0 + b1 + b2, b3, own.len() as int, e);
        }
    } else {
        if e.0.intersects(q) {
            assert(own.push(e) =~= own.insert(own.len() as int, e));
        }
    }
}

/// The four parts that a query collects below a node, joined behind the
/// node's own matches `own`, where part `ks` has gained `a` at `below`: the
/// whole has gained `a`. The result is the place.
pub proof fn lemma_part_gains<A>(
    own: Seq<A>,
    b0: Seq<A>,
    b1: Seq<A>,
    b2: Seq<A>,
    b3: Seq<A>,
    ks: int,
    below: int,
    a: A,
) -> (pos: int)
    requires
        0 <= ks < 4,
        0 <= below <= (if ks == 0 {
            b0
        } else if ks == 1 {
            b1
        } else if ks == 2 {
            b2
        } else {
            b3
        }).len(),
    ensures
        0 <= pos <= (own + b0 + b1 + b2 + b3).len(),
        (own + b0 + b1 + b2 + b3).insert(pos, a) == own + (if ks == 0 {
            b0.insert(below, a)
        } else {
            b0
        }) + (if ks == 1 {
            b1.insert(below, a)
        } else {
            b1
        }) + (if ks == 2 {
            b2.insert(below, a)
        } else {
            b2
        }) + (if ks == 3 {
            b3.insert(below, a)
        } else {
            b3
        }),
{
    if ks == 0 {
        lemma_insert_right(own, b0, below, a);
        lemma_insert_left(own + b0, b1, own.len() + below, a);
        lemma_insert_left(own + b0 + b1, b2, own.len() + below, a);
        lemma_insert_left(own + b0 + b1 + b2, b3, own.len() + below, a);
        own.len() + below
    } else if ks == 1 {
        lemma_insert_right(own + b0, b1, below, a);
        lemma_insert_left(own + b0 + b1, b2, (own + b0).len() + below, a);
        lemma_insert_left(own + b0 + b1 + b2, b3, (own + b0).len() + below, a);
        (own + b0).len() + below
    } else if ks == 2 {
        lemma_insert_right(own + b0 + b1, b2, below, a);
        lemma_insert_left(own + b0 + b1 + b2, b3, (own + b0 + b1).len() + below, a);
        (own + b0 + b1).len() + below
    } else {
        lemma_insert_right(own + b0 + b1 + b2, b3, below, a);
        (own + b0 + b1 + b2).len() + below
    }
}

/// Pushing an entry at the end of its way puts it in at one place among what
/// a query collects from a node on the way, if the query reports the entry
/// from there, and changes nothing of it if not. The result is that place.
pub proof fn lemma_push_on_trail_walk<T>(
    before: Seq<Node<T>>,
    after: Seq<Node<T>>,
    next_free: int,
    path: Seq<int>,
    regs: Seq<Aabb>,
    e: (Aabb, T),
    q: Aabb,
    s: int,
) -> (pos: int)
    requires
        linked(before, next_free),
        trail(before, path, regs, e.0),
        0 <= path.last() < before.len(),
        !descends(regs.last(), e.0),
        differs_at(before, after, path.last()),
        after[path.last()].items@ == before[path.last()].items@.push(e),
        0 <= s < path.len(),
        in_bounds(regs[s]),
    ensures
        0 <= pos <= walk(before, path[s], regs[s], q).len(),
        reported(regs[s], e.0, q) ==> walk(after, path[s], regs[s], q) == walk(
            before,
            path[s],
            regs[s],
            q,
        ).insert(pos, e),
        !reported(regs[s], e.0, q) ==> walk(after, path[s], regs[s], q) == walk(
            before,
            path[s],
            regs[s],
            q,
        ),
    decreases path.len() - s,
{
    let j = path.last();
    let p = path[s];
    let region = regs[s];
    if s == path.len() - 1 {
        lemma_walk_pushed_here(before, after, j, region, e, q);
        matching(before[j].items@, q).len() as int
    } else {
        assert(step(before, path, regs, e.0, s));
        lemma_trail_rises(before, path, regs, e.0, s, path.len() - 1);
        let c = first_child(before, p);
        let ks = quadrant_of(region, e.0);
        lemma_quadrant_in_bounds(region, ks);
        lemma_reported_step(region, e.0, q);
        let below = lemma_push_on_trail_walk(before, after, next_free, path, regs, e, q, s + 1);
        if ks != 0 {
            lemma_beside_trail(before, next_free, path, regs, e.0, s, 0);
            lemma_push_elsewhere_walk(before, after, j, c, region.quadrant(0), q);
        }
        if ks != 1 {
            lemma_beside_trail(before, next_free, path, regs, e.0, s, 1);
            lemma_push_elsewhere_walk(before, after, j, c + 1, region.quadrant(1), q);
        }
        if ks != 2 {
            lemma_beside_trail(before, next_free, path, regs, e.0, s, 2);
            lemma_push_elsewhere_walk(before, after, j, c + 2, region.quadrant(2), q);
        }
        if ks != 3 {
            lemma_beside_trail(before, next_free, path, regs, e.0, s, 3);
            lemma_push_elsewhere_walk(before, after, j, c + 3, region.quadrant(3), q);
        }
        assert(first_child(after, p) == c);
        assert(after[p].items@ == before[p].items@);
        lemma_walk_unfold(before, p, region, q);
        lemma_walk_unfold(after, p, region, q);
        let own = matching(before[p].items@, q);
        let b0 = branch(before, c, region.quadrant(0), q);
        let b1 = branch(before, c + 1, region.quadrant(1), q);
        let b2 = branch(before, c + 2, region.quadrant(2), q);
        let b3 = branch(before, c + 3, region.quadrant(3), q);
        if reported(region, e.0, q) {
            lemma_part_gains(own, b0, b1, b2, b3, ks, below, e)
        } else {
            0
        }
    }
}

} // verus!
