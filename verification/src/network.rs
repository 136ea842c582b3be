//! What the client learns from the network.

use vstd::prelude::*;

verus! {

/// The best block number known from the network after a peer has reported
/// `reported`: the larger of the two, and `reported` where none was known.
pub open spec fn spec_known_best_after(known: Option<u64>, reported: u64) -> Option<u64> {
    match known {
        Some(n) if n >= reported => Some(n),
        _ => Some(reported),
    }
}

/// Updates the best block number known from the network with the number that
/// a block announce or a new connection reports.
pub fn known_best_after(known: Option<u64>, reported: u64) -> (best: Option<u64>)
    ensures
        best == spec_known_best_after(known, reported),
{
    match known {
        Some(n) => if n >= reported {
            Some(n)
        } else {
            Some(reported)
        },
        None => Some(reported),
    }
}

} // verus!
