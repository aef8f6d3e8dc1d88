//! The mathematical model of the graph: positions, edges, walks and
//! distances.

use vstd::prelude::*;

verus! {

/// Every shortcut target names a position of the line (0-based).
pub open spec fn valid_shortcuts(s: Seq<usize>) -> bool {
    s.len() > 0 && forall|i: int| 0 <= i < s.len() ==> #[trigger] s[i] < s.len()
}

/// Positions `i` and `j` are joined by an edge: a step along the line, or
/// a shortcut of either of them pointing at the other.
pub open spec fn adjacent(s: Seq<usize>, i: int, j: int) -> bool {
    &&& 0 <= i < s.len()
    &&& 0 <= j < s.len()
    &&& (j == i - 1 || j == i + 1 || s[i] == j || s[j] == i)
}

/// `p` lists the positions of a walk that starts at position 0, each one
/// joined by an edge to the next. It takes `p.len() - 1` hops.
pub open spec fn is_walk(s: Seq<usize>, p: Seq<int>) -> bool {
    &&& s.len() > 0
    &&& p.len() > 0
    &&& p[0] == 0
    &&& forall|k: int| 0 <= k < p.len() - 1 ==> #[trigger] adjacent(s, p[k], p[k + 1])
}

/// `p` is a walk from position 0 that ends at position `i`.
pub open spec fn walk_to(s: Seq<usize>, p: Seq<int>, i: int) -> bool {
    is_walk(s, p) && p.last() == i
}

/// Position `i` can be reached from position 0 in exactly `k` hops.
pub open spec fn reachable_in(s: Seq<usize>, i: int, k: nat) -> bool {
    exists|p: Seq<int>| #[trigger] walk_to(s, p, i) && p.len() == k + 1
}

/// `k` is the least number of hops over which position `i` can be reached
/// from position 0.
pub open spec fn is_distance(s: Seq<usize>, i: int, k: nat) -> bool {
    &&& reachable_in(s, i, k)
    &&& forall|p: Seq<int>| #[trigger] walk_to(s, p, i) ==> k + 1 <= p.len()
}

/// `d` holds, for each position, its distance from position 0.
pub open spec fn is_distance_map(s: Seq<usize>, d: Seq<usize>) -> bool {
    &&& d.len() == s.len()
    &&& forall|i: int| 0 <= i < s.len() ==> #[trigger] is_distance(s, i, d[i] as nat)
}

/// Every entry of `raw` lies in `1..=raw.len()`: the input in its 1-based
/// form.
pub open spec fn valid_raw_shortcuts(raw: Seq<usize>) -> bool {
    raw.len() > 0 && forall|i: int| 0 <= i < raw.len() ==> 1 <= #[trigger] raw[i] <= raw.len()
}

/// The 0-based form of a 1-based shortcut sequence.
pub open spec fn zero_based(raw: Seq<usize>) -> Seq<usize> {
    raw.map_values(|t: usize| (t - 1) as usize)
}

/// A walk extended by one edge is a walk.
pub proof fn lemma_walk_push(s: Seq<usize>, p: Seq<int>, j: int)
    requires
        is_walk(s, p),
        adjacent(s, p.last(), j),
    ensures
        is_walk(s, p.push(j)),
        p.push(j).last() == j,
        p.push(j).len() == p.len() + 1,
{
    let q = p.push(j);
    assert forall|k: int| 0 <= k < q.len() - 1 implies #[trigger] adjacent(s, q[k], q[k + 1]) by {
        if k < p.len() - 1 {
            assert(q[k] == p[k] && q[k + 1] == p[k + 1]);
            assert(adjacent(s, p[k], p[k + 1]));
        }
    }
}

/// A walk without its last position is a walk.
pub proof fn lemma_walk_drop_last(s: Seq<usize>, p: Seq<int>)
    requires
        is_walk(s, p),
        p.len() > 1,
    ensures
        is_walk(s, p.drop_last()),
        adjacent(s, p.drop_last().last(), p.last()),
{
    let q = p.drop_last();
    assert forall|k: int| 0 <= k < q.len() - 1 implies #[trigger] adjacent(s, q[k], q[k + 1]) by {
        assert(adjacent(s, p[k], p[k + 1]));
    }
    let k = p.len() - 2;
    assert(adjacent(s, p[k], p[k + 1]));
}

/// A labelling with 0 at position 0 that grows by at most one across each
/// edge is a lower bound on the hops of every walk.
pub proof fn lemma_walk_lower_bound(s: Seq<usize>, d: Seq<usize>, p: Seq<int>)
    requires
        d.len() == s.len(),
        d[0] == 0,
        forall|i: int, j: int| #[trigger] adjacent(s, i, j) ==> d[j] <= d[i] + 1,
        is_walk(s, p),
    ensures
        d[p.last()] + 1 <= p.len(),
    decreases p.len(),
{
    if p.len() > 1 {
        lemma_walk_drop_last(s, p);
        lemma_walk_lower_bound(s, d, p.drop_last());
        assert(adjacent(s, p.drop_last().last(), p.last()));
    }
}

} // verus!
