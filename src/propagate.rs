//! Breadth-first propagation of hop counts from position 0.

use vstd::prelude::*;
use crate::graph::{adjacent, is_distance, is_distance_map, lemma_walk_lower_bound, lemma_walk_push, reachable_in, valid_raw_shortcuts, valid_shortcuts, walk_to, zero_based};
use crate::incoming::{lemma_last_pointing_below, last_pointing_below, IncomingIndex};

verus! {

/// The number of positions that already hold a distance.
pub open spec fn num_recorded(d: Seq<Option<usize>>) -> nat
    decreases d.len(),
{
    if d.len() == 0 {
        0
    } else {
        num_recorded(d.drop_last()) + if d.last() is Some {
            1nat
        } else {
            0nat
        }
    }
}

proof fn lemma_num_recorded_bound(d: Seq<Option<usize>>)
    ensures
        num_recorded(d) <= d.len(),
    decreases d.len(),
{
    if d.len() > 0 {
        lemma_num_recorded_bound(d.drop_last());
    }
}

proof fn lemma_num_recorded_none(d: Seq<Option<usize>>)
    requires
        forall|i: int| 0 <= i < d.len() ==> #[trigger] d[i] is None,
    ensures
        num_recorded(d) == 0,
    decreases d.len(),
{
    if d.len() > 0 {
        assert(d.last() is None);
        lemma_num_recorded_none(d.drop_last());
    }
}

proof fn lemma_num_recorded_update(d: Seq<Option<usize>>, i: int, v: usize)
    requires
        0 <= i < d.len(),
        d[i] is None,
    ensures
        num_recorded(d.update(i, Some(v))) == num_recorded(d) + 1,
    decreases d.len(),
{
    let e = d.update(i, Some(v));
    if i == d.len() - 1 {
        assert(e.drop_last() =~= d.drop_last());
    } else {
        lemma_num_recorded_update(d.drop_last(), i, v);
        assert(e.drop_last() =~= d.drop_last().update(i, Some(v)));
    }
}

/// The state of the search while the queue entry at `h` is the one being
/// expanded. Entries before `h` are done: every neighbour of theirs holds a
/// distance at most one more than theirs. Entries from `h` on are pending,
/// in non-decreasing order of distance, and no recorded distance exceeds
/// the one at `h` by more than one.
pub open spec fn search_state(s: Seq<usize>, d: Seq<Option<usize>>, q: Seq<usize>, h: int) -> bool {
    &&& d.len() == s.len()
    &&& 0 <= h <= q.len()
    &&& num_recorded(d) == q.len()
    &&& d[0] == Some(0usize)
    &&& forall|k: int|
        0 <= k < q.len() ==> {
            &&& #[trigger] q[k] < s.len()
            &&& d[q[k] as int] is Some
            &&& d[q[k] as int]->0 <= k
        }
    &&& forall|a: int, b: int|
        #![trigger q[a], q[b]]
        h <= a <= b < q.len() ==> d[q[a] as int]->0 <= d[q[b] as int]->0
    &&& h < q.len() ==> forall|i: int|
        0 <= i < s.len() && #[trigger] d[i] is Some ==> d[i]->0 <= d[q[h] as int]->0 + 1
    &&& forall|i: int|
        0 <= i < s.len() && #[trigger] d[i] is Some ==> exists|k: int|
            0 <= k < q.len() && #[trigger] q[k] == i
    &&& forall|k: int, j: int|
        0 <= k < h && #[trigger] adjacent(s, q[k] as int, j) ==> d[j] is Some && d[j]->0 <= d[q[k]
            as int]->0 + 1
    &&& forall|i: int|
        0 <= i < s.len() && #[trigger] d[i] is Some ==> reachable_in(s, i, d[i]->0 as nat)
}

/// Records `dc + 1` hops for position `j`, a neighbour of the entry being
/// expanded, and queues it, unless `j` already holds a distance. In
/// breadth-first order a recorded distance is already the least one.
fn relax(
    s: &Vec<usize>,
    d: &mut Vec<Option<usize>>,
    q: &mut Vec<usize>,
    h: usize,
    dc: usize,
    j: usize,
)
    requires
        search_state(s@, old(d)@, old(q)@, h as int),
        h < old(q)@.len(),
        old(d)@[old(q)@[h as int] as int] == Some(dc),
        adjacent(s@, old(q)@[h as int] as int, j as int),
    ensures
        search_state(s@, final(d)@, final(q)@, h as int),
        final(q)@.len() <= s@.len(),
        old(q)@.len() <= final(q)@.len(),
        forall|k: int| 0 <= k < old(q)@.len() ==> #[trigger] final(q)@[k] == old(q)@[k],
        forall|i: int|
            0 <= i < s@.len() && #[trigger] old(d)@[i] is Some ==> final(d)@[i] == old(d)@[i],
        final(d)@[j as int] is Some,
        final(d)@[j as int]->0 <= dc + 1,
{
    let ghost s0 = s@;
    let ghost d0 = d@;
    let ghost q0 = q@;
    let ghost c = q0[h as int] as int;
    let qlen = q.len();
    if d[j].is_none() {
        let v = dc + 1;
        proof {
            lemma_num_recorded_update(d0, j as int, v);
            let p = choose|p: Seq<int>| #[trigger] walk_to(s0, p, c) && p.len() == dc + 1;
            lemma_walk_push(s0, p, j as int);
            assert(walk_to(s0, p.push(j as int), j as int));
        }
        d.set(j, Some(v));
        q.push(j);
        proof {
            let d1 = d@;
            let q1 = q@;
            assert(q1[qlen as int] == j);
            assert forall|k: int| 0 <= k < q1.len() implies {
                &&& #[trigger] q1[k] < s0.len()
                &&& d1[q1[k] as int] is Some
                &&& d1[q1[k] as int]->0 <= k
            } by {
                if k < qlen {
                    assert(q1[k] == q0[k]);
                    assert(d0[q0[k] as int] is Some);
                }
            }
            assert forall|a: int, b: int|
                #![trigger q1[a], q1[b]]
                h <= a <= b < q1.len() implies d1[q1[a] as int]->0 <= d1[q1[b] as int]->0 by {
                if b < qlen {
                    assert(q1[a] == q0[a]);
                    assert(q1[b] == q0[b]);
                    assert(d0[q0[a] as int] is Some);
                    assert(d0[q0[b] as int] is Some);
                } else if a < qlen {
                    assert(q1[a] == q0[a]);
                    assert(d0[q0[a] as int] is Some);
                }
            }
            assert forall|i: int| 0 <= i < s0.len() && #[trigger] d1[i] is Some implies exists|k: int|
                0 <= k < q1.len() && #[trigger] q1[k] == i by {
                if i == j {
                    assert(q1[qlen as int] == i);
                } else {
                    assert(d0[i] is Some);
                    let k = choose|k: int| 0 <= k < q0.len() && #[trigger] q0[k] == i;
                    assert(q1[k] == i);
                }
            }
            assert forall|k: int, jj: int|
                0 <= k < h && #[trigger] adjacent(s0, q1[k] as int, jj) implies d1[jj] is Some
                && d1[jj]->0 <= d1[q1[k] as int]->0 + 1 by {
                assert(q1[k] == q0[k]);
                assert(adjacent(s0, q0[k] as int, jj));
                assert(d0[q0[k] as int] is Some);
            }
            assert forall|i: int|
                0 <= i < s0.len() && #[trigger] d1[i] is Some implies reachable_in(
                s0,
                i,
                d1[i]->0 as nat,
            ) by {
                if i != j {
                    assert(d0[i] is Some);
                }
            }
            assert forall|i: int|
                0 <= i < s0.len() && #[trigger] d1[i] is Some implies d1[i]->0 <= d1[q1[h as int] as int]->0
                + 1 by {
                if i != j {
                    assert(d0[i] is Some);
                }
            }
            lemma_num_recorded_bound(d1);
        }
    } else {
        proof {
            lemma_num_recorded_bound(d0);
        }
    }
}

/// Once the queue is drained every position holds a distance, by induction
/// along the line.
proof fn lemma_all_recorded(s: Seq<usize>, d: Seq<Option<usize>>, q: Seq<usize>, i: int)
    requires
        search_state(s, d, q, q.len() as int),
        0 <= i < s.len(),
    ensures
        d[i] is Some,
    decreases i,
{
    if i > 0 {
        lemma_all_recorded(s, d, q, i - 1);
        let k = choose|k: int| 0 <= k < q.len() && #[trigger] q[k] == i - 1;
        assert(adjacent(s, q[k] as int, i));
    }
}

/// Computes, for each position, the least number of hops from position 0,
/// where `s[i]` is the 0-based shortcut target of position `i`.
///
/// The work queue is an array with a head index, taken in first-in
/// first-out order, so positions are expanded level by level. Expanding a
/// position relaxes its line neighbours, its shortcut target and every
/// position whose shortcut points at it.
pub fn propagate(s: &Vec<usize>) -> (r: Vec<usize>)
    requires
        valid_shortcuts(s@),
    ensures
        is_distance_map(s@, r@),
{
    let n = s.len();
    let index = IncomingIndex::new(s);
    let mut d: Vec<Option<usize>> = Vec::new();
    let mut i: usize = 0;
    while i < n
        invariant
            i <= n,
            d@.len() == i,
            forall|k: int| 0 <= k < i ==> #[trigger] d@[k] is None,
        decreases n - i,
    {
        d.push(None);
        i = i + 1;
    }
    proof {
        lemma_num_recorded_none(d@);
        lemma_num_recorded_update(d@, 0, 0);
    }
    d.set(0, Some(0));
    let mut q: Vec<usize> = Vec::new();
    q.push(0);
    proof {
        let p = seq![0int];
        assert(walk_to(s@, p, 0));
        assert(reachable_in(s@, 0, 0));
        assert forall|i: int| 0 <= i < s@.len() && #[trigger] d@[i] is Some implies i == 0 by {}
        assert(q@[0] == 0);
    }
    let mut h: usize = 0;
    while h < q.len()
        invariant
            n == s@.len(),
            valid_shortcuts(s@),
            index.wf(s@),
            search_state(s@, d@, q@, h as int),
            q@.len() <= n,
        decreases n - h,
    {
        let c = q[h];
        let dc = d[c].unwrap();
        if c > 0 {
            relax(s, &mut d, &mut q, h, dc, c - 1);
        }
        if c + 1 < n {
            relax(s, &mut d, &mut q, h, dc, c + 1);
        }
        relax(s, &mut d, &mut q, h, dc, s[c]);
        let mut cur = index.first[c];
        let ghost mut bound: int = n as int;
        proof {
            lemma_last_pointing_below(s@, c as int, n as int);
        }
        while cur.is_some()
            invariant
                n == s@.len(),
                valid_shortcuts(s@),
                index.wf(s@),
                search_state(s@, d@, q@, h as int),
                q@.len() <= n,
                h < q@.len(),
                q@[h as int] == c,
                d@[c as int] == Some(dc),
                0 <= bound <= n,
                cur == last_pointing_below(s@, c as int, bound),
                forall|j: int|
                    #![trigger d@[j]]
                    adjacent(s@, c as int, j) && (j == c - 1 || j == c + 1 || j == s@[c as int]
                        || (bound <= j && s@[j] == c)) ==> d@[j] is Some && d@[j]->0 <= dc + 1,
            decreases bound,
        {
            let k = cur.unwrap();
            proof {
                lemma_last_pointing_below(s@, c as int, bound);
            }
            let ghost d_before = d@;
            relax(s, &mut d, &mut q, h, dc, k);
            proof {
                assert forall|j: int|
                    #![trigger d@[j]]
                    adjacent(s@, c as int, j) && (j == c - 1 || j == c + 1 || j == s@[c as int]
                        || (k <= j && s@[j] == c)) implies d@[j] is Some && d@[j]->0 <= dc + 1 by {
                    if j != k {
                        assert(d_before[j] is Some);
                    }
                }
                bound = k as int;
            }
            cur = index.next[k];
        }
        proof {
            lemma_last_pointing_below(s@, c as int, bound);
            let d1 = d@;
            let q1 = q@;
            assert forall|kk: int, j: int|
                0 <= kk < h + 1 && #[trigger] adjacent(s@, q1[kk] as int, j) implies d1[j] is Some
                && d1[j]->0 <= d1[q1[kk] as int]->0 + 1 by {
                if kk == h {
                    assert(adjacent(s@, c as int, j));
                }
            }
            if h + 1 < q1.len() {
                assert(q1[h as int] == c);
                assert(d1[q1[h as int] as int]->0 <= d1[q1[h + 1] as int]->0);
                assert forall|i: int|
                    0 <= i < s@.len() && #[trigger] d1[i] is Some implies d1[i]->0 <= d1[q1[h
                    + 1] as int]->0 + 1 by {}
            }
        }
        h = h + 1;
    }
    proof {
        assert forall|i: int| 0 <= i < n implies #[trigger] d@[i] is Some by {
            lemma_all_recorded(s@, d@, q@, i);
        }
    }
    let mut r: Vec<usize> = Vec::new();
    let mut i: usize = 0;
    while i < n
        invariant
            i <= n,
            n == d@.len(),
            r@.len() == i,
            forall|k: int| 0 <= k < n ==> #[trigger] d@[k] is Some,
            forall|k: int| 0 <= k < i ==> #[trigger] r@[k] == d@[k]->0,
        decreases n - i,
    {
        r.push(d[i].unwrap());
        i = i + 1;
    }
    proof {
        let dd = d@;
        let qq = q@;
        let rr = r@;
        assert forall|a: int, b: int| #[trigger] adjacent(s@, a, b) implies rr[b] <= rr[a] + 1 by {
            assert(dd[a] is Some);
            let k = choose|k: int| 0 <= k < qq.len() && #[trigger] qq[k] == a;
            assert(adjacent(s@, qq[k] as int, b));
        }
        assert forall|i: int| 0 <= i < s@.len() implies #[trigger] is_distance(s@, i, rr[i] as nat) by {
            assert(dd[i] is Some);
            assert(reachable_in(s@, i, rr[i] as nat));
            assert forall|p: Seq<int>| #[trigger] walk_to(s@, p, i) implies rr[i] + 1 <= p.len() by {
                lemma_walk_lower_bound(s@, rr, p);
            }
        }
    }
    r
}

/// Turns 1-based shortcut targets into 0-based ones.
pub fn to_zero_based(raw: &[usize]) -> (r: Vec<usize>)
    requires
        forall|i: int| 0 <= i < raw@.len() ==> 1 <= #[trigger] raw@[i],
    ensures
        r@ == zero_based(raw@),
{
    let mut r: Vec<usize> = Vec::new();
    let mut i: usize = 0;
    while i < raw.len()
        invariant
            i <= raw@.len(),
            forall|k: int| 0 <= k < raw@.len() ==> 1 <= #[trigger] raw@[k],
            r@ =~= zero_based(raw@.subrange(0, i as int)),
        decreases raw@.len() - i,
    {
        r.push(raw[i] - 1);
        i = i + 1;
        assert(raw@.subrange(0, i as int) =~= raw@.subrange(0, i - 1).push(raw@[i - 1]));
    }
    assert(raw@.subrange(0, i as int) =~= raw@);
    r
}

/// Computes, for each position, the least number of hops from position 0,
/// where `shortcuts[i]` is the 1-based shortcut target of position `i`.
pub fn solve(shortcuts: &[usize]) -> (r: Vec<usize>)
    requires
        valid_raw_shortcuts(shortcuts@),
    ensures
        valid_shortcuts(zero_based(shortcuts@)),
        is_distance_map(zero_based(shortcuts@), r@),
{
    let s = to_zero_based(shortcuts);
    assert forall|i: int| 0 <= i < s@.len() implies #[trigger] s@[i] < s@.len() by {
        assert(1 <= shortcuts@[i] <= shortcuts@.len());
    }
    propagate(&s)
}

} // verus!
