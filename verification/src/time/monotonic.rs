//! Backward steps and repeats in a series of ticks.

use vstd::prelude::*;
use crate::time::ticks;

verus! {

/// How many consecutive samples ran backwards, and how many repeated the one
/// before them. Counting is all that happens: rows are never reordered and
/// repeats never collapsed.
#[derive(Debug, Clone, Copy, PartialEq, Eq, Structural)]
pub struct MonotonicityReport {
    /// Consecutive pairs where the later tick is smaller.
    pub non_monotonic_count: usize,
    /// Consecutive pairs of equal ticks.
    pub duplicate_count: usize,
}

impl Default for MonotonicityReport {
    fn default() -> (report: Self)
        ensures
            report.non_monotonic_count == 0,
            report.duplicate_count == 0,
    {
        MonotonicityReport { non_monotonic_count: 0, duplicate_count: 0 }
    }
}

/// How many of the first `n` differences are negative.
pub open spec fn backward_steps(deltas: Seq<int>, n: int) -> nat
    decreases n,
{
    if n <= 0 {
        0
    } else {
        backward_steps(deltas, n - 1) + (if deltas[n - 1] < 0 {
            1nat
        } else {
            0nat
        })
    }
}

/// How many of the first `n` differences are zero.
pub open spec fn repeats(deltas: Seq<int>, n: int) -> nat
    decreases n,
{
    if n <= 0 {
        0
    } else {
        repeats(deltas, n - 1) + (if deltas[n - 1] == 0 {
            1nat
        } else {
            0nat
        })
    }
}

/// The report of a series with the given differences.
pub open spec fn monotonicity_of(deltas: Seq<int>) -> MonotonicityReport {
    MonotonicityReport {
        non_monotonic_count: backward_steps(deltas, deltas.len() as int) as usize,
        duplicate_count: repeats(deltas, deltas.len() as int) as usize,
    }
}

impl MonotonicityReport {
    /// The counts of the first `n` differences.
    pub open spec fn counts(&self, deltas: Seq<int>, n: int) -> bool {
        &&& self.non_monotonic_count == backward_steps(deltas, n)
        &&& self.duplicate_count == repeats(deltas, n)
    }

    /// Accounts for one more difference.
    pub fn observe_delta(&mut self, delta: i128)
        requires
            old(self).non_monotonic_count < usize::MAX,
            old(self).duplicate_count < usize::MAX,
        ensures
            final(self).non_monotonic_count == old(self).non_monotonic_count + (if delta < 0 {
                1int
            } else {
                0int
            }),
            final(self).duplicate_count == old(self).duplicate_count + (if delta == 0 {
                1int
            } else {
                0int
            }),
    {
        if delta < 0 {
            self.non_monotonic_count = self.non_monotonic_count + 1;
        } else if delta == 0 {
            self.duplicate_count = self.duplicate_count + 1;
        }
    }
}

pub proof fn lemma_counts_bound(deltas: Seq<int>, n: int)
    requires
        0 <= n,
    ensures
        backward_steps(deltas, n) <= n,
        repeats(deltas, n) <= n,
    decreases n,
{
    if n > 0 {
        lemma_counts_bound(deltas, n - 1);
    }
}

/// Counts the backward steps and repeats of `timestamps`.
pub fn detect_monotonicity(timestamps: &[i128]) -> (report: MonotonicityReport)
    ensures
        report == monotonicity_of(ticks::deltas(timestamps@)),
{
    let mut report: MonotonicityReport = MonotonicityReport {
        non_monotonic_count: 0,
        duplicate_count: 0,
    };
    let ghost deltas: Seq<int> = ticks::deltas(timestamps@);
    if timestamps.len() == 0 {
        return report;
    }
    let mut i: usize = 1;
    while i < timestamps.len()
        invariant
            1 <= i <= timestamps@.len(),
            deltas == ticks::deltas(timestamps@),
            report.counts(deltas, i - 1),
        decreases timestamps@.len() - i,
    {
        proof {
            lemma_counts_bound(deltas, i - 1);
            assert(deltas[i - 1] == timestamps@[i as int] - timestamps@[i - 1]);
        }
        if timestamps[i] < timestamps[i - 1] {
            report.observe_delta(-1);
        } else if timestamps[i] == timestamps[i - 1] {
            report.observe_delta(0);
        }
        i = i + 1;
    }
    proof {
        lemma_counts_bound(deltas, deltas.len() as int);
    }
    report
}

} // verus!
