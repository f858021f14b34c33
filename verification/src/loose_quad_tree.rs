//! The loose quadtree.
//!
//! The nodes live in one growing arena and name their children by slot. An
//! entry rests at the first node on its way down whose quadrants are too small
//! for it, so a query has to look into a quadrant only if the quadrant,
//! doubled about its centre, intersects the query.

use vstd::prelude::*;
use vstd::arithmetic::power2::{lemma2_to64, lemma2_to64_rest, lemma_pow2_unfold, pow2};
use vstd::multiset::Multiset;
use crate::aabb::{vec2, Aabb, AabbSplitFour, Vec2};
use crate::arena::{
    blank, boxes_valid, branch, forward, generations_agree, homed, lemma_stored_valid,
    lemma_walk_count, lemma_walk_outside, lemma_walk_unfold, linked, rest, single_parent, stored,
    walk,
};
use crate::descent::{
    lemma_attached, lemma_descend, lemma_prepared, lemma_pushed, lemma_pushed_walk, poised,
};
use crate::hits::{entries, gains, lemma_matching_empty, push_matching};
use crate::node::Node;
use crate::placement::{
    descends, in_bounds, lemma_quadrant_in_bounds, quadrant_of, reported, world_box, MAX_DEPTH,
    MAX_EXTENT,
};

verus! {

const TOP_LEFT: usize = 0;

const TOP_RIGHT: usize = 1;

const BOTTOM_LEFT: usize = 2;

const BOTTOM_RIGHT: usize = 3;

/// The children of a node take a block of this many slots.
pub const NUM_CHILDREN: usize = 4;

/// A loose quadtree over a world that starts at the origin.
#[derive(Debug, Clone)]
pub struct LooseQuadTree<T> {
    seq: u64,
    nodes: Vec<Node<T>>,
    size: Vec2,
    next_free: usize,
}

impl<T> View for LooseQuadTree<T> {
    type V = Multiset<(Aabb, T)>;

    /// The entries inserted since the tree was made or last cleared.
    closed spec fn view(&self) -> Multiset<(Aabb, T)> {
        stored(self.nodes@, 0)
    }
}

impl<T> LooseQuadTree<T> {
    /// The size of the world, fixed when the tree is made.
    pub closed spec fn world_size(&self) -> Vec2 {
        self.size
    }

    /// The generation: 1 for a new tree, one more after each `clear`.
    pub closed spec fn generation(&self) -> u64 {
        self.seq
    }

    /// The first slot of the arena that no node has been given yet.
    pub closed spec fn next_free_offset(&self) -> usize {
        self.next_free
    }

    /// The number of slots of the arena that hold a node.
    pub closed spec fn node_count(&self) -> nat {
        self.nodes@.len()
    }

    /// The region that the root covers.
    pub open spec fn world(&self) -> Aabb {
        world_box(self.world_size())
    }

    /// The tree is well formed: the world is within limits, the arena has the
    /// shape of a tree, and every entry rests where its descent from the root
    /// ends.
    pub closed spec fn wf(&self) -> bool {
        &&& self.seq >= 1
        &&& 0 < self.size.x <= MAX_EXTENT
        &&& 0 < self.size.y <= MAX_EXTENT
        &&& linked(self.nodes@, self.next_free as int)
        &&& (blank(self.nodes@[0]) || self.nodes@[0].seq == self.seq)
        &&& homed(self.nodes@, 0, world_box(self.size))
    }

    /// What a query for `q` returns, in the order in which it finds it: the
    /// matches at a node before those below it, and the children of a node
    /// from top-left over top-right and bottom-left to bottom-right.
    pub closed spec fn traversal(&self, q: Aabb) -> Seq<(Aabb, T)> {
        walk(self.nodes@, 0, world_box(self.size), q)
    }

    /// The world of a well-formed tree is within limits, and every stored
    /// box is valid.
    pub proof fn lemma_wf_bounds(&self)
        requires
            self.wf(),
        ensures
            0 < self.world_size().x <= MAX_EXTENT,
            0 < self.world_size().y <= MAX_EXTENT,
            in_bounds(self.world()),
            self.generation() >= 1,
            1 <= self.node_count() <= self.next_free_offset(),
            self.next_free_offset() % NUM_CHILDREN == 1,
            forall|e: (Aabb, T)| self@.count(e) > 0 ==> e.0.valid(),
    {
        assert forall|e: (Aabb, T)| self@.count(e) > 0 implies e.0.valid() by {
            lemma_stored_valid(self.nodes@, 0, e);
        }
    }

    /// What a query returns, counted entry by entry: an entry that the query
    /// reports is returned as often as the tree stores it, and any other
    /// entry not at all.
    pub proof fn lemma_traversal_count(&self, q: Aabb, e: (Aabb, T))
        requires
            self.wf(),
        ensures
            self.traversal(q).to_multiset().count(e) == if reported(self.world(), e.0, q) {
                self@.count(e)
            } else {
                0
            },
    {
        lemma_walk_count(self.nodes@, 0, world_box(self.size), q, e);
    }

    /// An empty tree over a world of the given size.
    pub fn new(size: Vec2) -> (tree: Self)
        requires
            0 < size.x <= MAX_EXTENT,
            0 < size.y <= MAX_EXTENT,
        ensures
            tree.wf(),
            tree@ == Multiset::<(Aabb, T)>::empty(),
            tree.world_size() == size,
            tree.generation() == 1,
            tree.next_free_offset() == 1,
            tree.node_count() == 1,
            forall|q: Aabb| #[trigger] tree.traversal(q) == Seq::<(Aabb, T)>::empty(),
    {
        let tree = LooseQuadTree { seq: 1, nodes: vec![Node::default()], size, next_free: 1 };
        proof {
            reveal(single_parent);
            reveal(generations_agree);
            assert(tree.nodes@[0].items@ =~= Seq::<(Aabb, T)>::empty());
            tree.nodes@[0].items@.to_multiset_ensures();
            assert(tree@ =~= Multiset::<(Aabb, T)>::empty());
            assert forall|q: Aabb| #[trigger] tree.traversal(q) == Seq::<(Aabb, T)>::empty() by {
                lemma_walk_unfold(tree.nodes@, 0, world_box(size), q);
                lemma_matching_empty::<T>(q);
            }
        }
        tree
    }

    /// Whether the arena has slots left for the blocks of children that one
    /// more `insert` may take.
    pub fn has_room(&self) -> (ok: bool)
        ensures
            ok == (self.next_free_offset() + NUM_CHILDREN * MAX_DEPTH <= usize::MAX),
    {
        self.next_free <= usize::MAX - NUM_CHILDREN * MAX_DEPTH
    }

    /// Whether the generation can still be counted up, as `clear` does.
    pub fn can_clear(&self) -> (ok: bool)
        ensures
            ok == (self.generation() < u64::MAX),
    {
        self.seq < u64::MAX
    }

    /// Empties the tree in constant time: the root is reset and stamped with
    /// the next generation, and no other slot is touched.
    pub fn clear(&mut self)
        requires
            old(self).wf(),
            old(self).generation() < u64::MAX,
        ensures
            final(self).wf(),
            final(self)@ == Multiset::<(Aabb, T)>::empty(),
            final(self).generation() == old(self).generation() + 1,
            final(self).world_size() == old(self).world_size(),
            final(self).next_free_offset() == old(self).next_free_offset(),
            final(self).node_count() == old(self).node_count(),
            forall|q: Aabb| #[trigger] final(self).traversal(q) == Seq::<(Aabb, T)>::empty(),
    {
        self.seq += 1;
        self.nodes[0].reuse(self.seq);
        proof {
            reveal(single_parent);
            reveal(generations_agree);
            assert(forall|i: int| 1 <= i < self.nodes@.len() ==> self.nodes@[i] == old(self).nodes@[i]);
            assert(self.nodes@[0].items@ =~= Seq::<(Aabb, T)>::empty());
            self.nodes@[0].items@.to_multiset_ensures();
            assert(self@ =~= Multiset::<(Aabb, T)>::empty());
            assert forall|q: Aabb| #[trigger] self.traversal(q) == Seq::<(Aabb, T)>::empty() by {
                lemma_walk_unfold(self.nodes@, 0, world_box(self.size), q);
                lemma_matching_empty::<T>(q);
            }
        }
    }

    /// Stores `t` under `aabb`. The box sinks from the root into the quadrant
    /// that holds its centre for as long as it is no larger than half the
    /// region on both axes, and rests at the node where that ends; a box of
    /// no width and no height rests where the region is a single cell. Nodes
    /// and blocks of children are made on the way as needed.
    pub fn insert(&mut self, aabb: Aabb, t: T)
        requires
            old(self).wf(),
            aabb.valid(),
            old(self).next_free_offset() + NUM_CHILDREN * MAX_DEPTH <= usize::MAX,
        ensures
            final(self).wf(),
            final(self)@ == old(self)@.insert((aabb, t)),
            final(self).world_size() == old(self).world_size(),
            final(self).generation() == old(self).generation(),
            old(self).next_free_offset() <= final(self).next_free_offset()
                <= old(self).next_free_offset() + NUM_CHILDREN * MAX_DEPTH,
            old(self).node_count() <= final(self).node_count() <= final(self).next_free_offset(),
            forall|q: Aabb|
                if reported(old(self).world(), aabb, q) {
                    gains(#[trigger] final(self).traversal(q), old(self).traversal(q), (aabb, t))
                } else {
                    final(self).traversal(q) == old(self).traversal(q)
                },
    {
        let mut centre = aabb.centre();
        let mut index: usize = 0;
        let mut extent = self.size;
        let ghost start = self.nodes@;
        let ghost first_free = self.next_free as int;
        let ghost seq = self.seq;
        let ghost size = self.size;
        let ghost entry = (aabb, t);
        let ghost mut path: Seq<int> = seq![0int];
        let ghost mut regs: Seq<Aabb> = seq![world_box(self.size)];
        let ghost mut room: nat = MAX_DEPTH as nat;
        proof {
            lemma2_to64_rest();
        }
        loop
            invariant
                self.seq == seq,
                self.size == size,
                aabb.valid(),
                poised(start, self.nodes@, self.next_free as int, path, regs, aabb, seq),
                path.last() == index,
                index < self.nodes@.len() ==> blank(self.nodes@[index as int])
                    || self.nodes@[index as int].seq == seq,
                regs[0] == world_box(size),
                in_bounds(regs.last()),
                extent == regs.last().size,
                centre.x == aabb.midpoint().x - regs.last().top_left.x,
                centre.y == aabb.midpoint().y - regs.last().top_left.y,
                room <= MAX_DEPTH,
                extent.x <= pow2(room),
                extent.y <= pow2(room),
                first_free <= self.next_free,
                self.next_free + NUM_CHILDREN * room <= first_free + NUM_CHILDREN * MAX_DEPTH,
                first_free + NUM_CHILDREN * MAX_DEPTH <= usize::MAX,
            ensures
                index < self.nodes@.len(),
                self.nodes@[index as int].seq == seq,
                !descends(regs.last(), aabb),
            decreases room,
        {
            let ghost head = self.nodes@;
            let ghost head_free = self.next_free;
            #[verifier::loop_isolation(false)]
            while self.nodes.len() <= index
                invariant
                    self.seq == seq,
                    self.size == size,
                    self.next_free == head_free,
                    head.len() <= self.nodes@.len(),
                    self.nodes@.len() == head.len() || self.nodes@.len() <= index + 1,
                    forall|n: int| 0 <= n < head.len() ==> #[trigger] self.nodes@[n] == head[n],
                    forall|n: int| head.len() <= n < self.nodes@.len() ==> blank(#[trigger] self.nodes@[n]),
                decreases index + 1 - self.nodes.len(),
            {
                self.nodes.push(Node::default());
            }
            if self.nodes[index].seq != self.seq {
                self.nodes[index].reuse(self.seq);
            }
            let max_size = Vec2 { x: extent.x / 2, y: extent.y / 2 };
            proof {
                if index < head.len() {
                    assert(self.nodes@[index as int].items@ =~= head[index as int].items@);
                }
                lemma_prepared(start, head, self.nodes@, self.next_free as int, path, regs, aabb, seq);
            }
            if aabb.size.x > max_size.x || aabb.size.y > max_size.y || (max_size.x == 0
                && max_size.y == 0) {
                break ;
            }
            proof {
                lemma2_to64();
                assert(room >= 1);
            }
            let ghost mid = self.nodes@;
            let child_offset: usize = match self.nodes[index].child_offset {
                Some(offset) => offset,
                None => {
                    let free: usize = self.next_free;
                    self.next_free += NUM_CHILDREN;
                    self.nodes[index].child_offset = Some(free);
                    proof {
                        lemma_attached(start, mid, self.nodes@, free as int, path, regs, aabb, seq);
                    }
                    free
                },
            };
            proof {
                let k = quadrant_of(regs.last(), aabb);
                lemma_descend(start, self.nodes@, self.next_free as int, path, regs, aabb, seq);
                lemma_quadrant_in_bounds(regs.last(), k);
                lemma2_to64();
                lemma_pow2_unfold(room);
                path = path.push(child_offset + k);
                regs = regs.push(regs.last().quadrant(k));
                room = (room - 1) as nat;
            }
            if centre.x < max_size.x {
                extent.x = max_size.x;
                if centre.y < max_size.y {
                    index = child_offset + TOP_LEFT;
                    extent.y = max_size.y;
                } else {
                    index = child_offset + BOTTOM_LEFT;
                    centre.y = centre.y - max_size.y;
                    extent.y = extent.y - max_size.y;
                }
            } else {
                centre.x = centre.x - max_size.x;
                extent.x = extent.x - max_size.x;
                if centre.y < max_size.y {
                    index = child_offset + TOP_RIGHT;
                    extent.y = max_size.y;
                } else {
                    index = child_offset + BOTTOM_RIGHT;
                    centre.y = centre.y - max_size.y;
                    extent.y = extent.y - max_size.y;
                }
            }
        }
        let ghost mid = self.nodes@;
        self.nodes[index].items.push((aabb, t));
        proof {
            lemma_pushed(start, mid, self.nodes@, self.next_free as int, path, regs, entry, seq);
            assert forall|q: Aabb|
                if reported(old(self).world(), aabb, q) {
                    gains(#[trigger] self.traversal(q), old(self).traversal(q), (aabb, t))
                } else {
                    self.traversal(q) == old(self).traversal(q)
                } by {
                lemma_pushed_walk(
                    start,
                    mid,
                    self.nodes@,
                    self.next_free as int,
                    path,
                    regs,
                    entry,
                    seq,
                    q,
                );
            }
        }
    }

    /// Collects from the subtree of the node in slot `current_index`, which
    /// covers `current_node_aabb`, what a query for `aabb_to_test` finds there.
    /// A slot beyond the end of the arena stands for an empty node.
    fn for_each_intersection_rec<'a>(
        nodes: &'a Vec<Node<T>>,
        current_index: usize,
        current_node_aabb: &Aabb,
        aabb_to_test: &Aabb,
        hits: &mut Vec<&'a (Aabb, T)>,
        Ghost(next_free): Ghost<int>,
    )
        requires
            forward(nodes@, next_free),
            boxes_valid(nodes@),
            next_free <= usize::MAX,
            in_bounds(*current_node_aabb),
            aabb_to_test.valid(),
        ensures
            entries(final(hits)@) == entries(old(hits)@) + walk(
                nodes@,
                current_index as int,
                *current_node_aabb,
                *aabb_to_test,
            ),
        decreases rest(nodes@, current_index as int),
    {
        let ghost before = entries(hits@);
        let ghost region = *current_node_aabb;
        let ghost q = *aabb_to_test;
        if current_index < nodes.len() {
            let node = &nodes[current_index];
            proof {
                lemma_walk_unfold(nodes@, current_index as int, region, q);
            }
            push_matching(&node.items, aabb_to_test, hits);
            if let Some(child_offset) = node.child_offset {
                let AabbSplitFour { top_left, top_right, bottom_left, bottom_right } =
                    current_node_aabb.split_four();
                let ghost c = child_offset as int;
                let ghost own = entries(hits@);
                proof {
                    lemma_quadrant_in_bounds(region, 0);
                    lemma_quadrant_in_bounds(region, 1);
                    lemma_quadrant_in_bounds(region, 2);
                    lemma_quadrant_in_bounds(region, 3);
                }
                if top_left.double_about_centre().is_intersecting(aabb_to_test) {
                    Self::for_each_intersection_rec(
                        nodes,
                        child_offset + TOP_LEFT,
                        &top_left,
                        aabb_to_test,
                        hits,
                        Ghost(next_free),
                    );
                }
                let ghost after0 = entries(hits@);
                assert(after0 =~= own + branch(nodes@, c, region.quadrant(0), q));
                if top_right.double_about_centre().is_intersecting(aabb_to_test) {
                    Self::for_each_intersection_rec(
                        nodes,
                        child_offset + TOP_RIGHT,
                        &top_right,
                        aabb_to_test,
                        hits,
                        Ghost(next_free),
                    );
                }
                let ghost after1 = entries(hits@);
                assert(after1 =~= after0 + branch(nodes@, c + 1, region.quadrant(1), q));
                if bottom_left.double_about_centre().is_intersecting(aabb_to_test) {
                    Self::for_each_intersection_rec(
                        nodes,
                        child_offset + BOTTOM_LEFT,
                        &bottom_left,
                        aabb_to_test,
                        hits,
                        Ghost(next_free),
                    );
                }
                let ghost after2 = entries(hits@);
                assert(after2 =~= after1 + branch(nodes@, c + 2, region.quadrant(2), q));
                if bottom_right.double_about_centre().is_intersecting(aabb_to_test) {
                    Self::for_each_intersection_rec(
                        nodes,
                        child_offset + BOTTOM_RIGHT,
                        &bottom_right,
                        aabb_to_test,
                        hits,
                        Ghost(next_free),
                    );
                }
                assert(entries(hits@) =~= after2 + branch(nodes@, c + 3, region.quadrant(3), q));
                assert(entries(hits@) =~= before + walk(nodes@, current_index as int, region, q));
            }
        } else {
            proof {
                lemma_walk_outside(nodes@, current_index as int, region, q);
                assert(before + Seq::<(Aabb, T)>::empty() =~= before);
            }
        }
    }

    /// The stored entries that a query for `aabb` finds, each borrowed from
    /// the tree: every entry that intersects `aabb` and that the query
    /// reaches, as often as it is stored, and nothing else.
    pub fn for_each_intersection(&self, aabb: &Aabb) -> (hits: Vec<&(Aabb, T)>)
        requires
            self.wf(),
            aabb.valid(),
        ensures
            entries(hits@) == self.traversal(*aabb),
            forall|e: (Aabb, T)|
                #[trigger] entries(hits@).to_multiset().count(e) == if reported(
                    self.world(),
                    e.0,
                    *aabb,
                ) {
                    self@.count(e)
                } else {
                    0
                },
    {
        let root_aabb = Aabb::new(vec2(0, 0), self.size);
        let mut hits: Vec<&(Aabb, T)> = Vec::new();
        proof {
            assert(entries(hits@) =~= Seq::<(Aabb, T)>::empty());
            assert(entries(hits@) + self.traversal(*aabb) =~= self.traversal(*aabb));
        }
        Self::for_each_intersection_rec(
            &self.nodes,
            0,
            &root_aabb,
            aabb,
            &mut hits,
            Ghost(self.next_free as int),
        );
        proof {
            assert forall|e: (Aabb, T)|
                #[trigger] entries(hits@).to_multiset().count(e) == if reported(
                    self.world(),
                    e.0,
                    *aabb,
                ) {
                    self@.count(e)
                } else {
                    0
                } by {
                self.lemma_traversal_count(*aabb, e);
            }
        }
        hits
    }
}

} // verus!
