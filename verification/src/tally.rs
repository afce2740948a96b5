//! Sums of values of which some may be missing.

use vstd::prelude::*;

verus! {

/// The sum of the first `n` values, or `None` if one of them is missing.
pub open spec fn tally(values: Seq<Option<nat>>, n: int) -> Option<nat>
    decreases n,
{
    if n <= 0 {
        Some(0)
    } else {
        match (tally(values, n - 1), values[n - 1]) {
            (Some(sum), Some(value)) => Some(sum + value),
            _ => None,
        }
    }
}

/// Once a value is missing, no longer sum exists.
pub proof fn lemma_tally_lost(values: Seq<Option<nat>>, m: int, n: int)
    requires
        m <= n,
        tally(values, m) is None,
    ensures
        tally(values, n) is None,
    decreases n - m,
{
    if m < n {
        lemma_tally_lost(values, m, n - 1);
    }
}

/// A sum over more values is defined over fewer, and is no smaller.
pub proof fn lemma_tally_grows(values: Seq<Option<nat>>, m: int, n: int)
    requires
        m <= n,
        tally(values, n) is Some,
    ensures
        tally(values, m) is Some,
        tally(values, m)->0 <= tally(values, n)->0,
    decreases n - m,
{
    if m < n {
        lemma_tally_grows(values, m, n - 1);
    }
}

} // verus!
