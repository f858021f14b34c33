//! The steps of an insertion, each as a change to the arena: a slot is
//! brought into being and stamped, a block of children is linked in, the
//! descent moves on to a child, and at its end the entry is pushed.

use vstd::prelude::*;
use crate::aabb::Aabb;
use crate::arena::{
    blank, boxes_valid, first_child, forward, generations_agree, homed, linked, single_parent,
    stored, walk,
};
use crate::growth::{differs_at, grown, lemma_grown, lemma_grown_walk};
use crate::hits::gains;
use crate::node::Node;
use crate::placement::{descends, in_bounds, quadrant_of, reported};
use crate::trail::{
    lemma_push_on_trail, lemma_push_on_trail_walk, lemma_trail_rises, step, trail,
};

verus! {

/// Every node on the way above its end is of generation `seq`.
pub open spec fn live_above<T>(nodes: Seq<Node<T>>, path: Seq<int>, seq: u64) -> bool {
    forall|s: int| 0 <= s < path.len() - 1 ==> (#[trigger] nodes[path[s]]).seq == seq
}

/// The descent stands at the node in slot `path.last()`, which is blank or of
/// generation `seq` if it exists at all.
pub open spec fn poised<T>(
    start: Seq<Node<T>>,
    nodes: Seq<Node<T>>,
    next_free: int,
    path: Seq<int>,
    regs: Seq<Aabb>,
    aabb: Aabb,
    seq: u64,
) -> bool {
    &&& linked(nodes, next_free)
    &&& grown(start, nodes)
    &&& trail(nodes, path, regs, aabb)
    &&& live_above(nodes, path, seq)
    &&& 0 <= path.last() < next_free
}

/// `after` is `before` with slot `index` brought into being, if it was not
/// there, and stamped with `seq`; the slots added on the way are blank.
pub open spec fn prepared<T>(before: Seq<Node<T>>, after: Seq<Node<T>>, index: int, seq: u64) -> bool {
    &&& 0 <= index < after.len()
    &&& before.len() <= after.len()
    &&& after.len() == before.len() || after.len() == index + 1
    &&& forall|n: int| 0 <= n < before.len() && n != index ==> #[trigger] after[n] == before[n]
    &&& forall|n: int| before.len() <= n < after.len() ==> blank(#[trigger] after[n])
    &&& index < before.len() ==> after[index].items@ == before[index].items@
        && after[index].child_offset == before[index].child_offset
    &&& after[index].seq == seq
}

/// Growing in two steps is growing.
pub proof fn lemma_grown_twice<T>(a: Seq<Node<T>>, b: Seq<Node<T>>, c: Seq<Node<T>>)
    requires
        grown(a, b),
        grown(b, c),
    ensures
        grown(a, c),
{
    assert forall|n: int| 0 <= n < a.len() implies (#[trigger] c[n]).items@ == a[n].items@ by {
        assert(b[n].items@ == a[n].items@);
    }
    assert forall|n: int| 0 <= n < a.len() implies (#[trigger] c[n]).child_offset
        == a[n].child_offset || (a[n].child_offset.is_none() && first_child(c, n) >= a.len()) by {
        assert(b[n].child_offset == a[n].child_offset || (a[n].child_offset.is_none()
            && first_child(b, n) >= a.len()));
    }
    assert forall|n: int| a.len() <= n < c.len() implies (#[trigger] c[n]).items@.len() == 0 by {
        if n < b.len() {
            assert(b[n].items@.len() == 0);
            assert(c[n].items@ == b[n].items@);
        }
    }
}

/// A way stays a way while the links of the nodes above its end stay.
pub proof fn lemma_trail_kept<T>(
    before: Seq<Node<T>>,
    after: Seq<Node<T>>,
    path: Seq<int>,
    regs: Seq<Aabb>,
    aabb: Aabb,
    seq: u64,
)
    requires
        trail(before, path, regs, aabb),
        live_above(before, path, seq),
        before.len() <= after.len(),
        forall|n: int|
            0 <= n < before.len() && n != path.last() ==> #[trigger] after[n] == before[n],
    ensures
        trail(after, path, regs, aabb),
        live_above(after, path, seq),
{
    assert forall|s: int| 0 <= s < path.len() - 1 implies #[trigger] step(
        after,
        path,
        regs,
        aabb,
        s,
    ) && after[path[s]] == before[path[s]] by {
        assert(step(before, path, regs, aabb, s));
        lemma_trail_rises(before, path, regs, aabb, s, path.len() - 1);
    }
    assert forall|s: int| 0 <= s < path.len() - 1 implies (#[trigger] after[path[s]]).seq == seq by {
        assert(step(after, path, regs, aabb, s));
        assert(before[path[s]].seq == seq);
    }
}

/// The parent of the end of the way is the node before it on the way: any
/// node whose block of children holds the end is of generation `seq`.
pub proof fn lemma_parent_live<T>(
    nodes: Seq<Node<T>>,
    next_free: int,
    path: Seq<int>,
    regs: Seq<Aabb>,
    aabb: Aabb,
    seq: u64,
    i: int,
)
    requires
        linked(nodes, next_free),
        trail(nodes, path, regs, aabb),
        live_above(nodes, path, seq),
        0 <= i < nodes.len(),
        nodes[i].child_offset.is_some(),
        first_child(nodes, i) <= path.last() < first_child(nodes, i) + 4,
    ensures
        nodes[i].seq == seq,
{
    let last = path.len() - 1;
    if last == 0 {
        assert(path[0] == 0);
    } else {
        assert(step(nodes, path, regs, aabb, last - 1));
        let above = path[last - 1];
        assert(nodes[above].child_offset.is_some());
        assert(first_child(nodes, above) == first_child(nodes, i));
        assert(above == i) by {
            reveal(single_parent);
        }
        assert(nodes[path[last - 1]].seq == seq);
    }
}

/// Bringing the slot at the end of the way into being and stamping it keeps
/// the descent poised.
pub proof fn lemma_prepared<T>(
    start: Seq<Node<T>>,
    before: Seq<Node<T>>,
    after: Seq<Node<T>>,
    next_free: int,
    path: Seq<int>,
    regs: Seq<Aabb>,
    aabb: Aabb,
    seq: u64,
)
    requires
        poised(start, before, next_free, path, regs, aabb, seq),
        path.last() < before.len() ==> blank(before[path.last()]) || before[path.last()].seq == seq,
        prepared(before, after, path.last(), seq),
    ensures
        poised(start, after, next_free, path, regs, aabb, seq),
{
    let index = path.last();
    lemma_trail_kept(before, after, path, regs, aabb, seq);
    assert(forward(after, next_free)) by {
        assert forall|i: int| 0 <= i < after.len() implies match (#[trigger] after[i]).child_offset {
            Some(c) => i < c && c % 4 == 1 && c + 4 <= next_free,
            None => true,
        } by {
            if i < before.len() {
                assert(after[i].child_offset == before[i].child_offset);
            }
        }
    }
    assert(single_parent(after)) by {
        reveal(single_parent);
        assert forall|i: int, j: int|
            0 <= i < after.len() && 0 <= j < after.len() && i != j && (
            #[trigger] after[i]).child_offset.is_some() implies after[i].child_offset != (
            #[trigger] after[j]).child_offset by {
            assert(i < before.len());
            assert(after[i].child_offset == before[i].child_offset);
            if j < before.len() {
                assert(after[j].child_offset == before[j].child_offset);
            }
        }
    }
    assert(generations_agree(after)) by {
        reveal(generations_agree);
        assert forall|i: int, n: int|
            0 <= i < after.len() && 0 <= n < after.len() && (
            #[trigger] after[i]).child_offset.is_some() && after[i].child_offset.unwrap() <= n
                < after[i].child_offset.unwrap() + 4 implies blank(#[trigger] after[n])
            || after[n].seq == after[i].seq by {
            assert(i < before.len());
            assert(after[i].child_offset == before[i].child_offset);
            if n == index {
                lemma_parent_live(before, next_free, path, regs, aabb, seq, i);
                assert(i != index);
            } else if n < before.len() {
                assert(after[n] == before[n]);
                if i == index {
                    assert(blank(before[n]) || before[n].seq == before[i].seq);
                    assert(before[i].seq == seq);
                }
            }
        }
    }
    assert(boxes_valid(after)) by {
        assert forall|i: int, k: int|
            0 <= i < after.len() && 0 <= k < after[i].items@.len() implies (
            #[trigger] after[i].items@[k]).0.valid() by {
            if i < before.len() {
                assert(after[i].items@ == before[i].items@);
                assert(before[i].items@[k].0.valid());
            }
        }
    }
    assert(grown(before, after)) by {
        assert forall|n: int| 0 <= n < before.len() implies (#[trigger] after[n]).items@
            == before[n].items@ by {}
        assert forall|n: int| 0 <= n < before.len() implies (#[trigger] after[n]).child_offset
            == before[n].child_offset by {}
    }
    lemma_grown_twice(start, before, after);
}

/// `after` is `before` with a fresh block of children, starting at slot
/// `block`, linked to the childless node in slot `index`.
pub open spec fn attached<T>(before: Seq<Node<T>>, after: Seq<Node<T>>, index: int, block: int) -> bool {
    &&& 0 <= index < before.len()
    &&& after.len() == before.len()
    &&& forall|n: int| 0 <= n < before.len() && n != index ==> #[trigger] after[n] == before[n]
    &&& after[index].items@ == before[index].items@
    &&& after[index].seq == before[index].seq
    &&& before[index].child_offset.is_none()
    &&& after[index].child_offset.is_some()
    &&& first_child(after, index) == block
}

/// Linking the next free block to the node at the end of the way keeps the
/// descent poised.
pub proof fn lemma_attached<T>(
    start: Seq<Node<T>>,
    before: Seq<Node<T>>,
    after: Seq<Node<T>>,
    next_free: int,
    path: Seq<int>,
    regs: Seq<Aabb>,
    aabb: Aabb,
    seq: u64,
)
    requires
        poised(start, before, next_free, path, regs, aabb, seq),
        attached(before, after, path.last(), next_free),
        before[path.last()].seq == seq,
    ensures
        poised(start, after, next_free + 4, path, regs, aabb, seq),
{
    let index = path.last();
    lemma_trail_kept(before, after, path, regs, aabb, seq);
    assert(forward(after, next_free + 4)) by {
        assert forall|i: int| 0 <= i < after.len() implies match (#[trigger] after[i]).child_offset {
            Some(c) => i < c && c % 4 == 1 && c + 4 <= next_free + 4,
            None => true,
        } by {
            if i != index {
                assert(after[i].child_offset == before[i].child_offset);
            }
        }
    }
    assert(single_parent(after)) by {
        reveal(single_parent);
        assert forall|i: int, j: int|
            0 <= i < after.len() && 0 <= j < after.len() && i != j && (
            #[trigger] after[i]).child_offset.is_some() implies after[i].child_offset != (
            #[trigger] after[j]).child_offset by {
            if i != index {
                assert(after[i].child_offset == before[i].child_offset);
            }
            if j != index {
                assert(after[j].child_offset == before[j].child_offset);
            }
        }
    }
    assert(generations_agree(after)) by {
        reveal(generations_agree);
        assert forall|i: int, n: int|
            0 <= i < after.len() && 0 <= n < after.len() && (
            #[trigger] after[i]).child_offset.is_some() && after[i].child_offset.unwrap() <= n
                < after[i].child_offset.unwrap() + 4 implies blank(#[trigger] after[n])
            || after[n].seq == after[i].seq by {
            if i != index {
                assert(after[i] == before[i]);
                if n == index {
                    lemma_parent_live(before, next_free, path, regs, aabb, seq, i);
                    assert(after[n].seq == before[n].seq);
                } else {
                    assert(after[n] == before[n]);
                }
            } else {
                assert(after[i].child_offset.unwrap() == first_child(after, index));
            }
        }
    }
    assert(boxes_valid(after)) by {
        assert forall|i: int, k: int|
            0 <= i < after.len() && 0 <= k < after[i].items@.len() implies (
            #[trigger] after[i].items@[k]).0.valid() by {
            assert(after[i].items@ == before[i].items@);
            assert(before[i].items@[k].0.valid());
        }
    }
    assert(grown(before, after)) by {
        assert forall|n: int| 0 <= n < before.len() implies (#[trigger] after[n]).items@
            == before[n].items@ by {}
        assert forall|n: int| 0 <= n < before.len() implies (#[trigger] after[n]).child_offset
            == before[n].child_offset || (before[n].child_offset.is_none() && first_child(after, n)
            >= before.len()) by {}
    }
    lemma_grown_twice(start, before, after);
}

/// Moving on to the child that the box sinks into keeps the descent poised,
/// and that child is blank or of generation `seq` if it exists at all.
pub proof fn lemma_descend<T>(
    start: Seq<Node<T>>,
    nodes: Seq<Node<T>>,
    next_free: int,
    path: Seq<int>,
    regs: Seq<Aabb>,
    aabb: Aabb,
    seq: u64,
)
    requires
        poised(start, nodes, next_free, path, regs, aabb, seq),
        path.last() < nodes.len(),
        nodes[path.last()].seq == seq,
        nodes[path.last()].child_offset.is_some(),
        descends(regs.last(), aabb),
    ensures
        ({
            let child = first_child(nodes, path.last()) + quadrant_of(regs.last(), aabb);
            let part = regs.last().quadrant(quadrant_of(regs.last(), aabb));
            &&& poised(start, nodes, next_free, path.push(child), regs.push(part), aabb, seq)
            &&& child < nodes.len() ==> blank(nodes[child]) || nodes[child].seq == seq
        }),
{
    let index = path.last();
    let child = first_child(nodes, index) + quadrant_of(regs.last(), aabb);
    let part = regs.last().quadrant(quadrant_of(regs.last(), aabb));
    let path2 = path.push(child);
    let regs2 = regs.push(part);
    assert forall|s: int| 0 <= s < path2.len() - 1 implies #[trigger] step(
        nodes,
        path2,
        regs2,
        aabb,
        s,
    ) by {
        if s < path.len() - 1 {
            assert(step(nodes, path, regs, aabb, s));
        }
    }
    assert forall|s: int| 0 <= s < path2.len() - 1 implies (#[trigger] nodes[path2[s]]).seq == seq by {
        if s < path.len() - 1 {
            assert(nodes[path[s]].seq == seq);
        }
    }
    if child < nodes.len() {
        reveal(generations_agree);
        assert(blank(nodes[child]) || nodes[child].seq == nodes[index].seq);
    }
}

/// Pushing the entry at the end of its way adds it to the tree and to
/// nothing else, and leaves the arena in shape.
pub proof fn lemma_pushed<T>(
    start: Seq<Node<T>>,
    before: Seq<Node<T>>,
    after: Seq<Node<T>>,
    next_free: int,
    path: Seq<int>,
    regs: Seq<Aabb>,
    e: (Aabb, T),
    seq: u64,
)
    requires
        poised(start, before, next_free, path, regs, e.0, seq),
        homed(start, 0, regs[0]),
        path.last() < before.len(),
        before[path.last()].seq == seq,
        !descends(regs.last(), e.0),
        e.0.valid(),
        differs_at(before, after, path.last()),
        forall|n: int| 0 <= n < before.len() ==> (#[trigger] after[n]).seq == before[n].seq,
        after[path.last()].items@ == before[path.last()].items@.push(e),
    ensures
        linked(after, next_free),
        stored(after, 0) == stored(start, 0).insert(e),
        homed(after, 0, regs[0]),
        blank(after[0]) || after[0].seq == seq,
{
    let index = path.last();
    lemma_grown(start, before, 0, regs[0]);
    lemma_push_on_trail(before, after, next_free, path, regs, e, 0);
    assert(forward(after, next_free)) by {
        assert forall|i: int| 0 <= i < after.len() implies match (#[trigger] after[i]).child_offset {
            Some(c) => i < c && c % 4 == 1 && c + 4 <= next_free,
            None => true,
        } by {
            assert(after[i].child_offset == before[i].child_offset);
        }
    }
    assert(single_parent(after)) by {
        reveal(single_parent);
        assert forall|i: int, j: int|
            0 <= i < after.len() && 0 <= j < after.len() && i != j && (
            #[trigger] after[i]).child_offset.is_some() implies after[i].child_offset != (
            #[trigger] after[j]).child_offset by {
            assert(after[i].child_offset == before[i].child_offset);
            assert(after[j].child_offset == before[j].child_offset);
        }
    }
    assert(generations_agree(after)) by {
        reveal(generations_agree);
        assert forall|i: int, n: int|
            0 <= i < after.len() && 0 <= n < after.len() && (
            #[trigger] after[i]).child_offset.is_some() && after[i].child_offset.unwrap() <= n
                < after[i].child_offset.unwrap() + 4 implies blank(#[trigger] after[n])
            || after[n].seq == after[i].seq by {
            assert(after[i].child_offset == before[i].child_offset);
            assert(after[i].seq == before[i].seq);
            assert(after[n].seq == before[n].seq);
            if n == index {
                lemma_parent_live(before, next_free, path, regs, e.0, seq, i);
            } else {
                assert(after[n].items@ == before[n].items@);
                assert(after[n].child_offset == before[n].child_offset);
                assert(blank(before[n]) || before[n].seq == before[i].seq);
            }
        }
    }
    assert(boxes_valid(after)) by {
        assert forall|i: int, k: int|
            0 <= i < after.len() && 0 <= k < after[i].items@.len() implies (
            #[trigger] after[i].items@[k]).0.valid() by {
            if i == index {
                if k < before[i].items@.len() {
                    assert(after[i].items@[k] == before[i].items@[k]);
                    assert(before[i].items@[k].0.valid());
                }
            } else {
                assert(after[i].items@ == before[i].items@);
                assert(before[i].items@[k].0.valid());
            }
        }
    }
    if path.len() > 1 {
        assert(before[path[0]].seq == seq);
    }
}

/// Pushing the entry at the end of its way puts it in at one place among what
/// a query collects from the tree, if the query reports the entry, and
/// changes nothing of it if not.
pub proof fn lemma_pushed_walk<T>(
    start: Seq<Node<T>>,
    before: Seq<Node<T>>,
    after: Seq<Node<T>>,
    next_free: int,
    path: Seq<int>,
    regs: Seq<Aabb>,
    e: (Aabb, T),
    seq: u64,
    q: Aabb,
)
    requires
        poised(start, before, next_free, path, regs, e.0, seq),
        in_bounds(regs[0]),
        path.last() < before.len(),
        !descends(regs.last(), e.0),
        differs_at(before, after, path.last()),
        after[path.last()].items@ == before[path.last()].items@.push(e),
    ensures
        reported(regs[0], e.0, q) ==> gains(walk(after, 0, regs[0], q), walk(start, 0, regs[0], q), e),
        !reported(regs[0], e.0, q) ==> walk(after, 0, regs[0], q) == walk(start, 0, regs[0], q),
{
    lemma_grown_walk(start, before, 0, regs[0], q);
    let pos = lemma_push_on_trail_walk(before, after, next_free, path, regs, e, q, 0);
    if reported(regs[0], e.0, q) {
        assert(walk(after, 0, regs[0], q) == walk(start, 0, regs[0], q).insert(pos, e));
    }
}

} // verus!
