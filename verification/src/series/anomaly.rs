//! What was noticed about a column and is shown beside it.

use vstd::prelude::*;
use std::ops::Range;
use crate::series::value;
use crate::series::value::is_nan;

verus! {

/// The anomalies of a column. Each is a record and no correction: the samples
/// stay as they are.
#[derive(Debug, Clone, PartialEq, Eq)]
pub struct Anomalies {
    /// The runs of missing samples.
    pub nan_runs: Vec<Range<usize>>,
    /// The places of the samples that lie far from the others.
    pub outliers: Vec<usize>,
    /// The rows of the source that were dropped.
    pub skipped_rows: Vec<usize>,
}

impl Anomalies {
    /// Whether nothing was noticed.
    pub fn is_empty(&self) -> (empty: bool)
        ensures
            empty == (self.nan_runs@.len() == 0 && self.outliers@.len() == 0
                && self.skipped_rows@.len() == 0),
    {
        self.nan_runs.len() == 0 && self.outliers.len() == 0 && self.skipped_rows.len() == 0
    }

    /// The same things were noticed.
    pub open spec fn agrees_with(self, other: Anomalies) -> bool {
        &&& range_ends(self.nan_runs@) == range_ends(other.nan_runs@)
        &&& self.outliers@ == other.outliers@
        &&& self.skipped_rows@ == other.skipped_rows@
    }

    /// Whether the same things were noticed.
    pub fn same_as(&self, other: &Anomalies) -> (same: bool)
        ensures
            same == self.agrees_with(*other),
    {
        same_ranges(self.nan_runs.as_slice(), other.nan_runs.as_slice()) && same_places(
            self.outliers.as_slice(),
            other.outliers.as_slice(),
        ) && same_places(self.skipped_rows.as_slice(), other.skipped_rows.as_slice())
    }
}

fn same_places(a: &[usize], b: &[usize]) -> (same: bool)
    ensures
        same == (a@ == b@),
{
    if a.len() != b.len() {
        return false;
    }
    let mut i: usize = 0;
    while i < a.len()
        invariant
            a@.len() == b@.len(),
            i <= a@.len(),
            forall|j: int| 0 <= j < i ==> #[trigger] a@[j] == b@[j],
        decreases a@.len() - i,
    {
        if a[i] != b[i] {
            assert(a@[i as int] != b@[i as int]);
            return false;
        }
        i = i + 1;
    }
    assert(a@ == b@);
    true
}

fn same_ranges(a: &[Range<usize>], b: &[Range<usize>]) -> (same: bool)
    ensures
        same == (range_ends(a@) == range_ends(b@)),
{
    let ghost left: Seq<(int, int)> = range_ends(a@);
    let ghost right: Seq<(int, int)> = range_ends(b@);
    if a.len() != b.len() {
        assert(left.len() != right.len());
        return false;
    }
    let mut i: usize = 0;
    while i < a.len()
        invariant
            left == range_ends(a@),
            right == range_ends(b@),
            a@.len() == b@.len(),
            i <= a@.len(),
            forall|j: int| 0 <= j < i ==> #[trigger] left[j] == right[j],
        decreases a@.len() - i,
    {
        if a[i].start != b[i].start || a[i].end != b[i].end {
            assert(left[i as int] != right[i as int]);
            return false;
        }
        assert(left[i as int] == right[i as int]);
        i = i + 1;
    }
    assert(left == right);
    true
}

impl Default for Anomalies {
    fn default() -> (anomalies: Anomalies)
        ensures
            anomalies.nan_runs@.len() == 0,
            anomalies.outliers@.len() == 0,
            anomalies.skipped_rows@.len() == 0,
    {
        Anomalies { nan_runs: Vec::new(), outliers: Vec::new(), skipped_rows: Vec::new() }
    }
}

/// The runs of NaN among the first `n` samples, each from its first sample up
/// to the one behind its last: a NaN goes on with the run that ends right
/// before it, or begins one.
pub open spec fn nan_runs(samples: Seq<u64>, n: int) -> Seq<(int, int)>
    decreases n,
{
    if n <= 0 {
        Seq::empty()
    } else {
        let before = nan_runs(samples, n - 1);
        if !value::is_nan_spec(samples[n - 1]) {
            before
        } else if n >= 2 && value::is_nan_spec(samples[n - 2]) {
            before.drop_last().push((before.last().0, n))
        } else {
            before.push((n - 1, n))
        }
    }
}

/// The ends of ranges as integers.
pub open spec fn range_ends(ranges: Seq<Range<usize>>) -> Seq<(int, int)> {
    Seq::new(ranges.len(), |i: int| (ranges[i].start as int, ranges[i].end as int))
}

/// `i` lies in one of the runs.
pub open spec fn in_some_run(runs: Seq<(int, int)>, i: int) -> bool {
    exists|r: int| 0 <= r < runs.len() && (#[trigger] runs[r]).0 <= i < runs[r].1
}

/// The runs cover exactly the NaNs, none is empty, and between any two there
/// is a sample that is no NaN.
pub proof fn law_nan_runs_cover_exactly_the_nans(samples: Seq<u64>, n: int)
    requires
        0 <= n <= samples.len(),
    ensures
        ({
            let runs = nan_runs(samples, n);
            &&& forall|i: int|
                0 <= i < n ==> (value::is_nan_spec(samples[i]) <==> #[trigger] in_some_run(
                    runs,
                    i,
                ))
            &&& forall|r: int|
                0 <= r < runs.len() ==> 0 <= (#[trigger] runs[r]).0 < runs[r].1 <= n
            &&& forall|r: int, s: int|
                0 <= r < s < runs.len() ==> (#[trigger] runs[r]).1 < (#[trigger] runs[s]).0
            &&& n > 0 && value::is_nan_spec(samples[n - 1]) ==> runs.len() > 0 && runs.last().1
                == n
            &&& n > 0 && !value::is_nan_spec(samples[n - 1]) && runs.len() > 0
                ==> runs.last().1 < n
        }),
    decreases n,
{
    if n > 0 {
        law_nan_runs_cover_exactly_the_nans(samples, n - 1);
        let before = nan_runs(samples, n - 1);
        let runs = nan_runs(samples, n);
        if value::is_nan_spec(samples[n - 1]) {
            let m = runs.len() - 1;
            assert forall|i: int| 0 <= i < n implies (value::is_nan_spec(samples[i])
                <==> #[trigger] in_some_run(runs, i)) by {
                if i == n - 1 {
                    assert(runs[m].0 <= i < runs[m].1);
                } else {
                    assert(value::is_nan_spec(samples[i]) <==> in_some_run(before, i));
                    if in_some_run(before, i) {
                        let r = choose|r: int|
                            0 <= r < before.len() && (#[trigger] before[r]).0 <= i < before[r].1;
                        assert(runs[r].0 <= i < runs[r].1);
                    }
                    if in_some_run(runs, i) {
                        let r = choose|r: int|
                            0 <= r < runs.len() && (#[trigger] runs[r]).0 <= i < runs[r].1;
                        if r < before.len() {
                            assert(before[r].0 <= i < before[r].1);
                        }
                    }
                }
            }
        }
    }
}

/// Finds the runs of NaN in samples that come one at a time.
pub struct NanRunScan {
    runs: Vec<Range<usize>>,
    open: Option<usize>,
    count: usize,
    samples: Ghost<Seq<u64>>,
}

impl View for NanRunScan {
    type V = Seq<u64>;

    closed spec fn view(&self) -> Seq<u64> {
        self.samples@
    }
}

impl NanRunScan {
    /// The finished runs and the open one are those of the samples so far.
    pub closed spec fn wf(&self) -> bool {
        let samples = self.samples@;
        let n = samples.len() as int;
        &&& self.count == n
        &&& match self.open {
            Some(start) => {
                &&& n > 0
                &&& value::is_nan_spec(samples[n - 1])
                &&& nan_runs(samples, n) == range_ends(self.runs@).push((start as int, n))
            },
            None => {
                &&& n == 0 || !value::is_nan_spec(samples[n - 1])
                &&& nan_runs(samples, n) == range_ends(self.runs@)
            },
        }
    }

    /// A scan that has seen nothing.
    pub fn new() -> (scan: NanRunScan)
        ensures
            scan.wf(),
            scan@ == Seq::<u64>::empty(),
    {
        let scan: NanRunScan = NanRunScan {
            runs: Vec::new(),
            open: None,
            count: 0,
            samples: Ghost(Seq::empty()),
        };
        assert(range_ends(scan.runs@) == Seq::<(int, int)>::empty());
        scan
    }

    /// Takes the next sample.
    pub fn observe(&mut self, sample: u64)
        requires
            old(self).wf(),
            old(self)@.len() < usize::MAX,
        ensures
            final(self).wf(),
            final(self)@ == old(self)@.push(sample),
    {
        let ghost before: Seq<u64> = self.samples@;
        let ghost n: int = before.len() as int;
        let ghost old_runs: Seq<Range<usize>> = self.runs@;
        proof {
            lemma_runs_of_prefix(before, sample, n);
            assert(before.push(sample)[n] == sample);
        }
        if is_nan(sample) {
            if self.open.is_none() {
                self.open = Some(self.count);
                assert(nan_runs(before.push(sample), n + 1) == range_ends(old_runs).push(
                    (n, n + 1),
                ));
            } else {
                let ghost start: int = self.open.unwrap() as int;
                assert(range_ends(old_runs).push((start, n)).drop_last() == range_ends(old_runs));
            }
        } else {
            match self.open {
                Some(start) => {
                    self.runs.push(start..self.count);
                    self.open = None;
                    assert(range_ends(self.runs@) == range_ends(old_runs).push((start as int, n)));
                },
                None => {},
            }
        }
        self.count = self.count + 1;
        self.samples = Ghost(before.push(sample));
    }

    /// The runs of all samples.
    pub fn finish(self) -> (runs: Vec<Range<usize>>)
        requires
            self.wf(),
        ensures
            range_ends(runs@) == nan_runs(self@, self@.len() as int),
    {
        let mut runs: Vec<Range<usize>> = self.runs;
        match self.open {
            Some(start) => {
                runs.push(start..self.count);
                assert(range_ends(runs@) == range_ends(self.runs@).push(
                    (start as int, self.count as int),
                ));
            },
            None => {},
        }
        runs
    }
}

/// A further sample does not change the runs of those before it.
proof fn lemma_runs_of_prefix(samples: Seq<u64>, sample: u64, n: int)
    requires
        n <= samples.len(),
    ensures
        nan_runs(samples.push(sample), n) == nan_runs(samples, n),
    decreases n,
{
    if n > 0 {
        lemma_runs_of_prefix(samples, sample, n - 1);
    }
}

/// The runs of NaN among the samples.
pub fn detect_nan_runs(samples: &[u64]) -> (runs: Vec<Range<usize>>)
    ensures
        range_ends(runs@) == nan_runs(samples@, samples@.len() as int),
{
    let mut scan: NanRunScan = NanRunScan::new();
    let mut i: usize = 0;
    assert(samples@.take(0) == Seq::<u64>::empty());
    while i < samples.len()
        invariant
            i <= samples@.len(),
            scan.wf(),
            scan@ == samples@.take(i as int),
        decreases samples@.len() - i,
    {
        assert(samples@.take(i + 1) == samples@.take(i as int).push(samples@[i as int]));
        scan.observe(samples[i]);
        i = i + 1;
    }
    assert(samples@.take(samples@.len() as int) == samples@);
    scan.finish()
}

} // verus!
