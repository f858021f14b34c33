//! What holds of the tree as a whole: a query agrees with a plain scan of the
//! entries, misses nothing that it should find, finds nothing else and nothing
//! twice, and depends on nothing but the entries inserted since the last
//! clear.

use vstd::prelude::*;
use vstd::multiset::Multiset;
use crate::aabb::Aabb;
use crate::hits::{lemma_matching_count, matching};
use crate::loose_quad_tree::LooseQuadTree;
use crate::naive::NaiveCollisionDetection;
use crate::placement::{anchored, lemma_anchored_visible};

verus! {

/// A tree and a scan that hold the same entries still do so after the same
/// entry has been inserted into both, and they do so when both are empty: so
/// they do after any sequence of insertions made on both.
pub proof fn lemma_inserts_keep_agreement<T>(held: Multiset<(Aabb, T)>, scanned: Seq<(Aabb, T)>, e: (Aabb, T))
    requires
        held == scanned.to_multiset(),
    ensures
        held.insert(e) == scanned.push(e).to_multiset(),
        Multiset::<(Aabb, T)>::empty() == Seq::<(Aabb, T)>::empty().to_multiset(),
{
    scanned.to_multiset_ensures();
    Seq::<(Aabb, T)>::empty().to_multiset_ensures();
    assert(Seq::<(Aabb, T)>::empty().to_multiset() =~= Multiset::<(Aabb, T)>::empty());
}

/// Where the tree and the scan hold the same entries, and the centre of every
/// stored box lies in the world, a query returns from the tree what the scan
/// returns: the same entries, each as often.
pub proof fn lemma_query_matches_scan<T>(
    tree: &LooseQuadTree<T>,
    naive: &NaiveCollisionDetection<T>,
    q: Aabb,
)
    requires
        tree.wf(),
        tree@ == naive@.to_multiset(),
        forall|e: (Aabb, T)| tree@.count(e) > 0 ==> anchored(tree.world(), e.0),
    ensures
        tree.traversal(q).to_multiset() == matching(naive@, q).to_multiset(),
{
    tree.lemma_wf_bounds();
    assert forall|e: (Aabb, T)|
        tree.traversal(q).to_multiset().count(e) == matching(naive@, q).to_multiset().count(
            e,
        ) by {
        tree.lemma_traversal_count(q, e);
        lemma_matching_count(naive@, q, e);
        if tree@.count(e) > 0 && e.0.intersects(q) {
            lemma_anchored_visible(tree.world(), e.0, q);
        }
    }
    assert(tree.traversal(q).to_multiset() =~= matching(naive@, q).to_multiset());
}

/// A stored entry whose box intersects the query, and whose centre lies in
/// the world, is returned as often as it is stored.
pub proof fn lemma_no_false_negatives<T>(tree: &LooseQuadTree<T>, q: Aabb, e: (Aabb, T))
    requires
        tree.wf(),
        tree@.count(e) > 0,
        anchored(tree.world(), e.0),
        e.0.intersects(q),
    ensures
        tree.traversal(q).to_multiset().count(e) == tree@.count(e),
{
    tree.lemma_wf_bounds();
    tree.lemma_traversal_count(q, e);
    lemma_anchored_visible(tree.world(), e.0, q);
}

/// Every entry that a query returns is stored, and its box intersects the
/// query itself, not only a doubled quadrant.
pub proof fn lemma_no_false_positives<T>(tree: &LooseQuadTree<T>, q: Aabb, e: (Aabb, T))
    requires
        tree.wf(),
        tree.traversal(q).to_multiset().count(e) > 0,
    ensures
        tree@.count(e) > 0,
        e.0.intersects(q),
{
    tree.lemma_traversal_count(q, e);
}

/// A query returns no entry more often than it is stored: an entry inserted
/// once comes back at most once.
pub proof fn lemma_no_duplicates<T>(tree: &LooseQuadTree<T>, q: Aabb, e: (Aabb, T))
    requires
        tree.wf(),
    ensures
        tree.traversal(q).to_multiset().count(e) <= tree@.count(e),
{
    tree.lemma_traversal_count(q, e);
}

/// A tree that holds nothing, as after `clear`, returns nothing, whatever
/// the query and whatever the arena held before.
pub proof fn lemma_empty_returns_nothing<T>(tree: &LooseQuadTree<T>, q: Aabb)
    requires
        tree.wf(),
        tree@ == Multiset::<(Aabb, T)>::empty(),
    ensures
        tree.traversal(q) == Seq::<(Aabb, T)>::empty(),
{
    let found = tree.traversal(q);
    if found.len() > 0 {
        found.to_multiset_ensures();
        assert(found.contains(found[0]));
        tree.lemma_traversal_count(q, found[0]);
    }
    assert(found =~= Seq::<(Aabb, T)>::empty());
}

/// What a query returns depends on the world and on the entries inserted
/// since the last clear, and on nothing else: a tree that was filled, cleared
/// and filled again answers as a new tree with the second filling does.
pub proof fn lemma_reuse_leaves_no_trace<T>(
    reused: &LooseQuadTree<T>,
    fresh: &LooseQuadTree<T>,
    q: Aabb,
)
    requires
        reused.wf(),
        fresh.wf(),
        reused.world_size() == fresh.world_size(),
        reused@ == fresh@,
    ensures
        reused.traversal(q).to_multiset() == fresh.traversal(q).to_multiset(),
{
    assert forall|e: (Aabb, T)|
        reused.traversal(q).to_multiset().count(e) == fresh.traversal(q).to_multiset().count(
            e,
        ) by {
        reused.lemma_traversal_count(q, e);
        fresh.lemma_traversal_count(q, e);
    }
    assert(reused.traversal(q).to_multiset() =~= fresh.traversal(q).to_multiset());
}

} // verus!
