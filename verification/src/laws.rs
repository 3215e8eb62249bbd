//! Laws relating the tree's operations, stated and proved over the abstract
//! view that the operations' contracts use: a finite map from coordinates to
//! values. `insert` takes the view to `view.insert(..)`, `remove` to
//! `view.remove(..)`, `get` reads it, so every law below transfers to any
//! sequence of calls on a `KdTree`.

use vstd::prelude::*;
use crate::kd_tree::{in_box, sq_dist, lemma_sq_dist_nonneg, lemma_sq_dist_zero};

verus! {

/// The view after a sequence of insertions, applied first pair first.
pub open spec fn insert_all<V>(m: Map<Seq<i32>, V>, ps: Seq<(Seq<i32>, V)>) -> Map<Seq<i32>, V>
    decreases ps.len(),
{
    if ps.len() == 0 {
        m
    } else {
        insert_all(m.insert(ps[0].0, ps[0].1), ps.drop_first())
    }
}

/// A coordinate that no insertion of the sequence touches keeps its binding:
/// an absent coordinate stays absent, a present value stays what it was.
pub proof fn lemma_untouched<V>(m: Map<Seq<i32>, V>, ps: Seq<(Seq<i32>, V)>, c: Seq<i32>)
    requires
        forall|u: int| 0 <= u < ps.len() ==> (#[trigger] ps[u]).0 != c,
    ensures
        insert_all(m, ps).contains_key(c) == m.contains_key(c),
        m.contains_key(c) ==> insert_all(m, ps)[c] == m[c],
    decreases ps.len(),
{
    if ps.len() > 0 {
        let tail = ps.drop_first();
        assert forall|u: int| 0 <= u < tail.len() implies (#[trigger] tail[u]).0 != c by {
            assert(tail[u] == ps[u + 1]);
        }
        lemma_untouched(m.insert(ps[0].0, ps[0].1), tail, c);
    }
}

/// For any sequence of insertions, a lookup of a coordinate afterwards
/// yields the value its last insertion assigned: later insertions at other
/// coordinates do not disturb it, and an earlier insertion at the same
/// coordinate is overwritten, never duplicated.
pub proof fn lemma_last_insert_wins<V>(m: Map<Seq<i32>, V>, ps: Seq<(Seq<i32>, V)>, u: int)
    requires
        0 <= u < ps.len(),
        forall|w: int| u < w < ps.len() ==> (#[trigger] ps[w]).0 != ps[u].0,
    ensures
        insert_all(m, ps).contains_key(ps[u].0),
        insert_all(m, ps)[ps[u].0] == ps[u].1,
    decreases ps.len(),
{
    let tail = ps.drop_first();
    if u == 0 {
        assert forall|w: int| 0 <= w < tail.len() implies (#[trigger] tail[w]).0 != ps[0].0 by {
            assert(tail[w] == ps[w + 1]);
        }
        lemma_untouched(m.insert(ps[0].0, ps[0].1), tail, ps[0].0);
    } else {
        assert forall|w: int| u - 1 < w < tail.len() implies (#[trigger] tail[w]).0 != tail[u
            - 1].0 by {
            assert(tail[w] == ps[w + 1]);
            assert(tail[u - 1] == ps[u]);
        }
        assert(tail[u - 1] == ps[u]);
        lemma_last_insert_wins(m.insert(ps[0].0, ps[0].1), tail, u - 1);
    }
}

/// A coordinate never inserted is absent from a tree grown from empty by
/// insertions alone.
pub proof fn lemma_never_inserted_absent<V>(ps: Seq<(Seq<i32>, V)>, c: Seq<i32>)
    requires
        forall|u: int| 0 <= u < ps.len() ==> (#[trigger] ps[u]).0 != c,
    ensures
        !insert_all(Map::<Seq<i32>, V>::empty(), ps).contains_key(c),
{
    lemma_untouched(Map::<Seq<i32>, V>::empty(), ps, c);
}

/// The `k`-dimensional box from the smallest to the largest representable
/// component on every axis.
pub open spec fn all_of(v: i32, k: int) -> Seq<i32> {
    Seq::new(k as nat, |j: int| v)
}

/// The all-space box contains every coordinate of its dimensionality, so a
/// range query over it reports, by the contract of `range_query`, every
/// stored pair exactly once.
pub proof fn lemma_full_box_covers(k: int, c: Seq<i32>)
    requires
        c.len() == k,
        k >= 0,
    ensures
        in_box(all_of(i32::MIN, k), all_of(i32::MAX, k), c),
{
}

/// A stored point exactly equal to the query coordinate is at squared
/// distance zero, and any point the search reports at minimal distance to
/// that query must then be the query point itself at distance zero.
pub proof fn lemma_nearest_exact(q: Seq<i32>, c: Seq<i32>, d: int)
    requires
        q.len() == c.len(),
        d == sq_dist(q, c),
        sq_dist(q, q) >= d,
    ensures
        d == 0,
        c =~= q,
{
    lemma_sq_dist_nonneg(q, c, q.len() as int);
    lemma_sq_dist_zero(q, q);
    lemma_sq_dist_zero(q, c);
}

/// Removing a coordinate leaves it absent, and shrinks the point count by
/// exactly one when the coordinate was present and not at all otherwise.
pub proof fn lemma_remove_count<V>(m: Map<Seq<i32>, V>, c: Seq<i32>)
    requires
        m.dom().finite(),
    ensures
        !m.remove(c).contains_key(c),
        m.contains_key(c) ==> m.remove(c).dom().len() == m.dom().len() - 1,
        !m.contains_key(c) ==> m.remove(c).dom().len() == m.dom().len(),
{
    if m.contains_key(c) {
        m.lemma_remove_key_len(c);
    } else {
        assert(m.remove(c) =~= m);
    }
}

} // verus!
