//! The answer to a query: the stored entries whose box intersects it.

use vstd::prelude::*;
use crate::aabb::Aabb;

verus! {

/// The stored entries that a list of borrowed hits points at, in order.
pub open spec fn entries<T>(hits: Seq<&(Aabb, T)>) -> Seq<(Aabb, T)> {
    hits.map_values(|h: &(Aabb, T)| *h)
}

/// The entries of `items` whose box intersects `q`, in their order.
pub open spec fn matching<T>(items: Seq<(Aabb, T)>, q: Aabb) -> Seq<(Aabb, T)> {
    items.filter(|e: (Aabb, T)| e.0.intersects(q))
}

/// `after` is `before` with `a` put in at some place, and otherwise as it was.
pub open spec fn gains<A>(after: Seq<A>, before: Seq<A>, a: A) -> bool {
    exists|pos: int| 0 <= pos <= before.len() && after == #[trigger] before.insert(pos, a)
}

/// Putting an element into the second of two joined sequences puts it into
/// the whole, further back by the length of the first.
pub proof fn lemma_insert_right<A>(x: Seq<A>, y: Seq<A>, pos: int, a: A)
    requires
        0 <= pos <= y.len(),
    ensures
        x + y.insert(pos, a) == (x + y).insert(x.len() + pos, a),
{
    assert(x + y.insert(pos, a) =~= (x + y).insert(x.len() + pos, a));
}

/// Putting an element into the first of two joined sequences puts it into
/// the whole at the same place.
pub proof fn lemma_insert_left<A>(x: Seq<A>, y: Seq<A>, pos: int, a: A)
    requires
        0 <= pos <= x.len(),
    ensures
        x.insert(pos, a) + y == (x + y).insert(pos, a),
{
    assert(x.insert(pos, a) + y =~= (x + y).insert(pos, a));
}

/// Nothing matches among no entries.
pub proof fn lemma_matching_empty<T>(q: Aabb)
    ensures
        matching(Seq::<(Aabb, T)>::empty(), q) == Seq::<(Aabb, T)>::empty(),
{
    reveal(Seq::filter);
}

/// Taking one more entry into account appends it to the matches if it
/// intersects `q`, and changes nothing if it does not.
pub proof fn lemma_matching_push<T>(items: Seq<(Aabb, T)>, e: (Aabb, T), q: Aabb)
    ensures
        matching(items.push(e), q) == if e.0.intersects(q) {
            matching(items, q).push(e)
        } else {
            matching(items, q)
        },
{
    reveal(Seq::filter);
    assert(items.push(e).drop_last() =~= items);
}

/// An entry occurs among the matches as often as among the entries if it
/// intersects `q`, and not at all if it does not.
pub proof fn lemma_matching_count<T>(items: Seq<(Aabb, T)>, q: Aabb, e: (Aabb, T))
    ensures
        matching(items, q).to_multiset().count(e) == if e.0.intersects(q) {
            items.to_multiset().count(e)
        } else {
            0
        },
    decreases items.len(),
{
    broadcast use vstd::seq_lib::group_to_multiset_ensures;

    if items.len() == 0 {
        lemma_matching_empty::<T>(q);
        assert(items =~= Seq::<(Aabb, T)>::empty());
    } else {
        let front = items.drop_last();
        let last = items.last();
        assert(items =~= front.push(last));
        lemma_matching_count(front, q, e);
        lemma_matching_push(front, last, q);
    }
}

/// Appends to `hits` a borrow of each entry of `items` whose box intersects
/// `q`, in the order of `items`.
pub fn push_matching<'a, T>(items: &'a Vec<(Aabb, T)>, q: &Aabb, hits: &mut Vec<&'a (Aabb, T)>)
    requires
        q.valid(),
        forall|k: int| 0 <= k < items@.len() ==> (#[trigger] items@[k]).0.valid(),
    ensures
        entries(final(hits)@) == entries(old(hits)@) + matching(items@, *q),
{
    let ghost before = entries(hits@);
    let mut n: usize = 0;
    proof {
        lemma_matching_empty::<T>(*q);
        assert(items@.take(0) =~= Seq::<(Aabb, T)>::empty());
        assert(before + Seq::<(Aabb, T)>::empty() =~= before);
    }
    while n < items.len()
        invariant
            q.valid(),
            forall|k: int| 0 <= k < items@.len() ==> (#[trigger] items@[k]).0.valid(),
            0 <= n <= items.len(),
            entries(hits@) == before + matching(items@.take(n as int), *q),
        decreases items.len() - n,
    {
        let entry = &items[n];
        proof {
            assert(items@[n as int].0.valid());
            assert(items@.take(n + 1) =~= items@.take(n as int).push(*entry));
            lemma_matching_push(items@.take(n as int), *entry, *q);
            assert(entries(hits@.push(entry)) =~= entries(hits@).push(*entry));
            assert((before + matching(items@.take(n as int), *q)).push(*entry) =~= before
                + matching(items@.take(n as int), *q).push(*entry));
        }
        if entry.0.is_intersecting(q) {
            hits.push(entry);
        }
        n += 1;
    }
    proof {
        assert(items@.take(n as int) =~= items@);
    }
}

} // verus!
