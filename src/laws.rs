//! Properties that every distance map has.

use vstd::prelude::*;
use crate::graph::{adjacent, is_distance, is_distance_map, is_walk, lemma_walk_push, reachable_in, valid_shortcuts, walk_to};

verus! {

/// Across any edge from `i` to `j` the distance grows by at most one.
pub proof fn lemma_edge_step(s: Seq<usize>, d: Seq<usize>, i: int, j: int)
    requires
        is_distance_map(s, d),
        adjacent(s, i, j),
    ensures
        d[j] <= d[i] + 1,
{
    assert(is_distance(s, i, d[i] as nat));
    assert(is_distance(s, j, d[j] as nat));
    let p = choose|p: Seq<int>| #[trigger] walk_to(s, p, i) && p.len() == d[i] + 1;
    lemma_walk_push(s, p, j);
    assert(walk_to(s, p.push(j), j));
}

/// Position 0 is at distance 0.
pub proof fn lemma_start_is_zero(s: Seq<usize>, d: Seq<usize>)
    requires
        valid_shortcuts(s),
        is_distance_map(s, d),
    ensures
        d[0] == 0,
{
    let p = seq![0int];
    assert(is_walk(s, p));
    assert(walk_to(s, p, 0));
    assert(is_distance(s, 0, d[0] as nat));
}

/// Neighbours on the line differ in distance by at most one.
pub proof fn lemma_line_steps(s: Seq<usize>, d: Seq<usize>)
    requires
        valid_shortcuts(s),
        is_distance_map(s, d),
    ensures
        forall|i: int|
            0 < i < s.len() ==> #[trigger] d[i] <= d[i - 1] + 1 && d[i - 1] <= d[i] + 1,
{
    assert forall|i: int| 0 < i < s.len() implies #[trigger] d[i] <= d[i - 1] + 1 && d[i - 1]
        <= d[i] + 1 by {
        lemma_edge_step(s, d, i - 1, i);
        lemma_edge_step(s, d, i, i - 1);
    }
}

/// A position and its shortcut target differ in distance by at most one,
/// since a shortcut can be taken either way.
pub proof fn lemma_shortcut_steps(s: Seq<usize>, d: Seq<usize>)
    requires
        valid_shortcuts(s),
        is_distance_map(s, d),
    ensures
        forall|i: int|
            0 <= i < s.len() ==> d[#[trigger] s[i] as int] <= d[i] + 1 && d[i] <= d[s[i] as int]
                + 1,
{
    assert forall|i: int| 0 <= i < s.len() implies d[#[trigger] s[i] as int] <= d[i] + 1 && d[i]
        <= d[s[i] as int] + 1 by {
        lemma_edge_step(s, d, i, s[i] as int);
        lemma_edge_step(s, d, s[i] as int, i);
    }
}

/// The distance map of a shortcut sequence is unique, so computing it
/// again on the same input gives the same sequence.
pub proof fn lemma_distance_map_unique(s: Seq<usize>, d1: Seq<usize>, d2: Seq<usize>)
    requires
        is_distance_map(s, d1),
        is_distance_map(s, d2),
    ensures
        d1 == d2,
{
    assert forall|i: int| 0 <= i < d1.len() implies d1[i] == d2[i] by {
        assert(is_distance(s, i, d1[i] as nat));
        assert(is_distance(s, i, d2[i] as nat));
        assert(reachable_in(s, i, d1[i] as nat));
        assert(reachable_in(s, i, d2[i] as nat));
    }
    assert(d1 =~= d2);
}

} // verus!
