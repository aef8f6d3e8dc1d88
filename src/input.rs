//! Checking a 1-based shortcut sequence before it is handed to the solver.

use vstd::prelude::*;
use crate::graph::valid_raw_shortcuts;

verus! {

/// Why a shortcut sequence was turned down.
#[derive(Debug, Clone, Copy, PartialEq, Eq, Structural)]
pub enum InputError {
    /// The sequence holds no position.
    Empty,
    /// The sequence does not hold the announced number of positions.
    LengthMismatch,
    /// The shortcut of this (0-based) position lies outside `1..=N`.
    OutOfRange(usize),
}

/// The target of position `i` lies outside `1..=raw.len()`.
pub open spec fn out_of_range_at(raw: Seq<usize>, i: int) -> bool {
    raw[i] < 1 || raw[i] > raw.len()
}

/// Accepts `raw` when it holds exactly `expected_len` positions, at least
/// one, each with a target in `1..=expected_len`. Otherwise names the first
/// fault: a wrong length, an empty sequence, or the first position whose
/// target is out of range.
pub fn check_shortcuts(expected_len: usize, raw: &[usize]) -> (r: Result<(), InputError>)
    ensures
        r is Ok <==> raw@.len() == expected_len && valid_raw_shortcuts(raw@),
        r == Err::<(), InputError>(InputError::LengthMismatch) <==> raw@.len() != expected_len,
        r == Err::<(), InputError>(InputError::Empty) <==> raw@.len() == expected_len
            && raw@.len() == 0,
        forall|i: usize|
            r == Err::<(), InputError>(InputError::OutOfRange(i)) <==> {
                &&& raw@.len() == expected_len
                &&& i < raw@.len()
                &&& out_of_range_at(raw@, i as int)
                &&& forall|k: int| 0 <= k < i ==> !out_of_range_at(raw@, k)
            },
{
    let n = raw.len();
    if n != expected_len {
        return Err(InputError::LengthMismatch);
    }
    if n == 0 {
        return Err(InputError::Empty);
    }
    let mut i: usize = 0;
    while i < n
        invariant
            n == raw@.len(),
            n == expected_len,
            i <= n,
            forall|k: int| 0 <= k < i ==> !out_of_range_at(raw@, k),
        decreases n - i,
    {
        if raw[i] < 1 || raw[i] > n {
            assert(out_of_range_at(raw@, i as int));
            return Err(InputError::OutOfRange(i));
        }
        i = i + 1;
    }
    assert forall|k: int| 0 <= k < raw@.len() implies 1 <= #[trigger] raw@[k] <= raw@.len() by {
        assert(!out_of_range_at(raw@, k));
    }
    Ok(())
}

} // verus!
