//! For each position, the positions whose shortcut points at it, kept as
//! chains through two flat arrays.

use vstd::prelude::*;

verus! {

/// The largest position below `bound` whose shortcut points at `j`.
pub open spec fn last_pointing_below(s: Seq<usize>, j: int, bound: int) -> Option<usize>
    decreases bound,
{
    if bound <= 0 {
        None
    } else if s[bound - 1] == j {
        Some((bound - 1) as usize)
    } else {
        last_pointing_below(s, j, bound - 1)
    }
}

/// What `last_pointing_below` returns: the largest such position, or none.
pub proof fn lemma_last_pointing_below(s: Seq<usize>, j: int, bound: int)
    requires
        0 <= bound <= s.len() <= usize::MAX,
    ensures
        match last_pointing_below(s, j, bound) {
            Some(i) => i < bound && s[i as int] == j && forall|k: int|
                i < k < bound ==> s[k] != j,
            None => forall|k: int| 0 <= k < bound ==> s[k] != j,
        },
    decreases bound,
{
    if bound > 0 {
        lemma_last_pointing_below(s, j, bound - 1);
    }
}

/// The positions pointing at `j` form a chain: `first[j]` is the largest of
/// them, and `next[i]` the largest below `i` that points where `i` points.
pub struct IncomingIndex {
    pub first: Vec<Option<usize>>,
    pub next: Vec<Option<usize>>,
}

impl IncomingIndex {
    pub open spec fn wf(&self, s: Seq<usize>) -> bool {
        &&& self.first@.len() == s.len()
        &&& self.next@.len() == s.len()
        &&& forall|j: int|
            0 <= j < s.len() ==> #[trigger] self.first@[j] == last_pointing_below(
                s,
                j,
                s.len() as int,
            )
        &&& forall|i: int|
            0 <= i < s.len() ==> #[trigger] self.next@[i] == last_pointing_below(
                s,
                s[i] as int,
                i,
            )
    }

    /// Builds the chains for the shortcut sequence `s`.
    pub fn new(s: &Vec<usize>) -> (r: IncomingIndex)
        requires
            forall|i: int| 0 <= i < s@.len() ==> #[trigger] s@[i] < s@.len(),
        ensures
            r.wf(s@),
    {
        let n = s.len();
        let mut first: Vec<Option<usize>> = Vec::new();
        let mut next: Vec<Option<usize>> = Vec::new();
        let mut i: usize = 0;
        while i < n
            invariant
                n == s@.len(),
                i <= n,
                first@.len() == i,
                next@.len() == i,
                forall|k: int| 0 <= k < i ==> #[trigger] first@[k] == None::<usize>,
                forall|k: int| 0 <= k < i ==> #[trigger] next@[k] == None::<usize>,
            decreases n - i,
        {
            first.push(None);
            next.push(None);
            i = i + 1;
        }
        let mut i: usize = 0;
        while i < n
            invariant
                n == s@.len(),
                i <= n,
                forall|k: int| 0 <= k < s@.len() ==> #[trigger] s@[k] < s@.len(),
                first@.len() == n,
                next@.len() == n,
                forall|j: int|
                    0 <= j < n ==> #[trigger] first@[j] == last_pointing_below(s@, j, i as int),
                forall|k: int|
                    0 <= k < i ==> #[trigger] next@[k] == last_pointing_below(
                        s@,
                        s@[k] as int,
                        k,
                    ),
            decreases n - i,
        {
            let target = s[i];
            let prev = first[target];
            next.set(i, prev);
            first.set(target, Some(i));
            assert forall|j: int| 0 <= j < n implies #[trigger] first@[j] == last_pointing_below(
                s@,
                j,
                i + 1,
            ) by {
                assert(last_pointing_below(s@, j, i + 1) == if s@[i as int] == j {
                    Some(i)
                } else {
                    last_pointing_below(s@, j, i as int)
                });
            }
            i = i + 1;
        }
        IncomingIndex { first, next }
    }
}

} // verus!
