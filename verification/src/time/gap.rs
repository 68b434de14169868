//! Gaps and sampling regularity of a time axis.
//!
//! Every rule is stated against the exact median of the differences between
//! consecutive ticks. The median is found without holding the differences:
//! [`select_kth_key`] narrows the range it lies in over repeated passes, in
//! memory that does not depend on how many ticks there are.

use vstd::prelude::*;
use crate::error::Result;
use crate::time::monotonic;
use crate::time::monotonic::MonotonicityReport;
use crate::time::rank;
use crate::time::ticks;
use crate::time::ticks::{delta_count, DeltaCursor, TickSource};

verus! {

/// A gap between two consecutive samples: a difference of more than ten times
/// the median difference.
#[derive(Debug, Clone, Copy, PartialEq, Eq, Structural)]
pub struct Gap {
    /// The last sample before the gap.
    pub before_index: usize,
    /// The first sample behind it.
    pub after_index: usize,
    /// The difference between the two, in ticks.
    pub delta: i128,
}

/// How regularly a time axis was sampled.
#[derive(Debug, Clone, Copy, PartialEq, Eq, Structural)]
pub enum SamplingClass {
    /// No gaps, and the median absolute deviation of the differences is at
    /// most one percent of their median.
    Uniform,
    /// Uniform within every segment between gaps.
    SegmentedUniform,
    /// Neither.
    Irregular,
}

/// What a time axis says about how it was sampled.
#[derive(Debug, Clone, Copy, PartialEq, Eq, Structural)]
pub struct TimeAxisStats {
    /// How many gaps there are.
    pub gap_count: usize,
    /// How regular the axis is.
    pub sampling_class: SamplingClass,
    /// How many samples ran backwards or repeated.
    pub monotonicity: MonotonicityReport,
}

/// `delta` is a gap in a series with the given differences: it exceeds ten
/// times their median.
pub open spec fn is_gap_spec(delta: int, deltas: Seq<int>) -> bool {
    2 * delta > GAP_MULTIPLE_OF_MEDIAN * rank::doubled_median(deltas)
}

/// Twice the distances of the differences from their median.
pub open spec fn doubled_deviations(deltas: Seq<int>) -> Seq<int> {
    Seq::new(
        deltas.len(),
        |i: int|
            if 2 * deltas[i] >= rank::doubled_median(deltas) {
                2 * deltas[i] - rank::doubled_median(deltas)
            } else {
                rank::doubled_median(deltas) - 2 * deltas[i]
            },
    )
}

/// The differences of `ticks` scatter by at most one percent: their median
/// absolute deviation is at most a hundredth of their median's magnitude.
/// Around a median of zero nothing may scatter, and fewer than two ticks have
/// nothing that could.
pub open spec fn is_uniform_spec(ticks: Seq<i128>) -> bool {
    let deltas = ticks::deltas(ticks);
    let median = rank::doubled_median(deltas);
    if deltas.len() == 0 {
        true
    } else if median == 0 {
        forall|i: int| 0 <= i < deltas.len() ==> #[trigger] deltas[i] == 0
    } else {
        100 * rank::doubled_median(doubled_deviations(deltas)) <= 2 * (if median > 0 {
            median
        } else {
            -median
        })
    }
}

/// The gaps among the first `n` differences of `ticks`, in order.
pub open spec fn gaps_before(ticks: Seq<i128>, n: int) -> Seq<Gap>
    decreases n,
{
    if n <= 0 {
        Seq::empty()
    } else {
        let deltas = ticks::deltas(ticks);
        if is_gap_spec(deltas[n - 1], deltas) {
            gaps_before(ticks, n - 1).push(
                Gap {
                    before_index: (n - 1) as usize,
                    after_index: n as usize,
                    delta: deltas[n - 1] as i128,
                },
            )
        } else {
            gaps_before(ticks, n - 1)
        }
    }
}

/// All gaps of `ticks`, in order.
pub open spec fn gaps_of(ticks: Seq<i128>) -> Seq<Gap> {
    gaps_before(ticks, ticks.len() - 1)
}

/// The samples `start..end` lie between two gaps, or between a gap and an end
/// of the axis, with no gap among them.
pub open spec fn is_segment(ticks: Seq<i128>, start: int, end: int) -> bool {
    let deltas = ticks::deltas(ticks);
    &&& 0 <= start < end <= ticks.len()
    &&& start == 0 || is_gap_spec(deltas[start - 1], deltas)
    &&& end == ticks.len() || is_gap_spec(deltas[end - 1], deltas)
    &&& forall|i: int| start <= i < end - 1 ==> !is_gap_spec(#[trigger] deltas[i], deltas)
}

/// How regularly `ticks` were sampled.
pub open spec fn sampling_class_of(ticks: Seq<i128>) -> SamplingClass {
    if ticks.len() < 2 {
        SamplingClass::Uniform
    } else if gaps_of(ticks).len() == 0 {
        if is_uniform_spec(ticks) {
            SamplingClass::Uniform
        } else {
            SamplingClass::Irregular
        }
    } else if forall|start: int, end: int| #[trigger]
        is_segment(ticks, start, end) ==> is_uniform_spec(ticks.subrange(start, end)) {
        SamplingClass::SegmentedUniform
    } else {
        SamplingClass::Irregular
    }
}

/// Everything `ticks` say about how they were sampled.
pub open spec fn stats_of(ticks: Seq<i128>) -> TimeAxisStats {
    TimeAxisStats {
        gap_count: gaps_of(ticks).len() as usize,
        sampling_class: sampling_class_of(ticks),
        monotonicity: monotonic::monotonicity_of(ticks::deltas(ticks)),
    }
}

/// How many counters one narrowing pass of [`select_kth_key`] uses.
pub const SELECT_BUCKETS: usize = 65536;

/// How many multiples of the median difference make a gap.
pub const GAP_MULTIPLE_OF_MEDIAN: i128 = 10;

/// The offset that makes unsigned keys order like signed differences.
pub const KEY_OFFSET: u128 = 0x8000_0000_0000_0000_0000_0000_0000_0000;

/// What is selected from: the differences themselves, or their distances from
/// a median that is `floor`, or `floor` and a half.
#[derive(Clone, Copy)]
enum Keying {
    Delta,
    Deviation { floor: i128, half: bool },
}

/// An unsigned key that orders like the difference it stands for.
pub fn delta_key(delta: i128) -> (key: u128)
    ensures
        key == delta + KEY_OFFSET,
{
    if delta >= 0 {
        delta as u128 + KEY_OFFSET
    } else {
        KEY_OFFSET - 1 - (-(delta + 1)) as u128
    }
}

/// The difference a key stands for.
pub fn delta_from_key(key: u128) -> (delta: i128)
    ensures
        delta + KEY_OFFSET == key,
{
    if key >= KEY_OFFSET {
        (key - KEY_OFFSET) as i128
    } else {
        -((KEY_OFFSET - 1 - key) as i128) - 1
    }
}

impl Keying {
    spec fn key_of(self, delta: int) -> int {
        match self {
            Keying::Delta => delta + KEY_OFFSET,
            Keying::Deviation { floor, half } => if delta > floor {
                delta - floor - (if half {
                    1int
                } else {
                    0int
                })
            } else {
                floor - delta
            },
        }
    }

    spec fn keys(self, deltas: Seq<int>) -> Seq<int> {
        Seq::new(deltas.len(), |i: int| self.key_of(deltas[i]))
    }

    fn key(self, delta: i128) -> (key: u128)
        ensures
            key == self.key_of(delta as int),
    {
        match self {
            Keying::Delta => delta_key(delta),
            Keying::Deviation { floor, half } => {
                let x: u128 = delta_key(delta);
                let y: u128 = delta_key(floor);
                if delta > floor {
                    if half {
                        x - y - 1
                    } else {
                        x - y
                    }
                } else {
                    y - x
                }
            },
        }
    }
}

/// Where the `b`-th of the cells of `width` keys that divide `lo..=hi` begins.
spec fn cell_start(lo: int, hi: int, width: int, b: int) -> int {
    if lo + b * width <= hi {
        lo + b * width
    } else {
        hi + 1
    }
}

/// How many of `seen` fall into the `b`-th cell.
spec fn cell_count(seen: Seq<int>, lo: int, hi: int, width: int, b: int) -> int {
    rank::count_below(seen, cell_start(lo, hi, width, b + 1)) - rank::count_below(
        seen,
        cell_start(lo, hi, width, b),
    )
}

/// Reading one more key moves exactly the counter of the cell it falls into.
proof fn lemma_cell_step(
    seen: Seq<int>,
    key: int,
    lo: int,
    hi: int,
    width: int,
    b: int,
)
    requires
        width > 0,
        lo <= hi,
        0 <= b,
    ensures
        lo <= key <= hi ==> cell_count(seen.push(key), lo, hi, width, b) == cell_count(
            seen,
            lo,
            hi,
            width,
            b,
        ) + (if b == (key - lo) / width {
            1int
        } else {
            0int
        }),
        !(lo <= key <= hi) ==> cell_count(seen.push(key), lo, hi, width, b) == cell_count(
            seen,
            lo,
            hi,
            width,
            b,
        ),
{
    assert(seen.push(key).drop_last() == seen);
    let at = (key - lo) / width;
    assert((b + 1) * width == b * width + width) by (nonlinear_arith);
    assert(b * width >= 0) by (nonlinear_arith)
        requires
            b >= 0,
            width > 0,
    ;
    if lo <= key <= hi {
        assert(at * width <= key - lo < at * width + width) by (nonlinear_arith)
            requires
                at == (key - lo) / width,
                width > 0,
        ;
        if b < at {
            assert(b * width + width <= at * width) by (nonlinear_arith)
                requires
                    b + 1 <= at,
                    width > 0,
            ;
        } else if b > at {
            assert(at * width + width <= b * width) by (nonlinear_arith)
                requires
                    at + 1 <= b,
                    width > 0,
            ;
        }
    }
}

/// The counters of the keys in `lo..=hi`, in cells of `width` keys.
fn histogram<S: TickSource + ?Sized>(
    source: &S,
    start: usize,
    end: usize,
    keying: Keying,
    lo: u128,
    hi: u128,
    width: u128,
) -> (counts: Result<Vec<usize>>)
    requires
        ticks::deltas_fit(source.ticks()),
        lo <= hi,
        width > 0,
        (hi - lo) < SELECT_BUCKETS * width,
    ensures
        counts is Err ==> source.may_fail(),
        counts matches Ok(c) ==> {
            &&& c@.len() == SELECT_BUCKETS
            &&& forall|b: int|
                0 <= b < SELECT_BUCKETS ==> #[trigger] c@[b] == cell_count(
                    keying.keys(
                        ticks::deltas(ticks::clamped(source.ticks(), start as int, end as int)),
                    ),
                    lo as int,
                    hi as int,
                    width as int,
                    b,
                )
        },
{
    let ghost deltas: Seq<int> = ticks::deltas(
        ticks::clamped(source.ticks(), start as int, end as int),
    );
    let ghost all: Seq<int> = keying.keys(deltas);
    let mut counts: Vec<usize> = Vec::new();
    let mut b: usize = 0;
    while b < SELECT_BUCKETS
        invariant
            b <= SELECT_BUCKETS,
            counts@.len() == b,
            forall|i: int| 0 <= i < b ==> counts@[i] == 0,
        decreases SELECT_BUCKETS - b,
    {
        counts.push(0);
        b = b + 1;
    }
    let total: usize = source.tick_count();
    let mut cursor: DeltaCursor<S> = match DeltaCursor::new(source, start, end) {
        Ok(cursor) => cursor,
        Err(error) => {
            return Err(error);
        },
    };
    let ghost mut seen: int = 0;
    proof {
        assert(all.take(0) == Seq::<int>::empty());
        assert(deltas.skip(0) == deltas);
    }
    loop
        invariant
            cursor.wf(),
            cursor.may_fail() == source.may_fail(),
            lo <= hi,
            width > 0,
            (hi - lo) < SELECT_BUCKETS * width,
            0 <= seen <= deltas.len(),
            deltas.len() <= total,
            all == keying.keys(deltas),
            cursor.rest() == deltas.skip(seen),
            counts@.len() == SELECT_BUCKETS,
            forall|i: int|
                0 <= i < SELECT_BUCKETS ==> #[trigger] counts@[i] == cell_count(
                    all.take(seen),
                    lo as int,
                    hi as int,
                    width as int,
                    i,
                ),
        ensures
            seen == deltas.len(),
        decreases deltas.len() - seen,
    {
        let delta: i128 = match cursor.next_delta() {
            Ok(Some(delta)) => delta,
            Ok(None) => {
                break;
            },
            Err(error) => {
                return Err(error);
            },
        };
        let key: u128 = keying.key(delta);
        let ghost before: Seq<usize> = counts@;
        proof {
            assert(all[seen] == key);
            assert(all.take(seen + 1) == all.take(seen).push(key as int));
            assert(deltas.skip(seen).skip(1) == deltas.skip(seen + 1));
        }
        if lo <= key && key <= hi {
            let offset: u128 = key - lo;
            let cell: u128 = offset / width;
            assert(cell < SELECT_BUCKETS) by (nonlinear_arith)
                requires
                    cell == offset / width,
                    offset < SELECT_BUCKETS * width,
                    width > 0,
            ;
            let index: usize = cell as usize;
            proof {
                let prefix = all.take(seen);
                rank::lemma_count_at_most_len(
                    prefix,
                    cell_start(lo as int, hi as int, width as int, cell + 1),
                );
                assert(counts@[index as int] <= seen);
            }
            let count: usize = counts[index] + 1;
            counts.set(index, count);
            assert forall|i: int| 0 <= i < SELECT_BUCKETS implies #[trigger] counts@[i]
                == cell_count(all.take(seen + 1), lo as int, hi as int, width as int, i) by {
                lemma_cell_step(
                    all.take(seen),
                    key as int,
                    lo as int,
                    hi as int,
                    width as int,
                    i,
                );
                assert(before[i] == cell_count(
                    all.take(seen),
                    lo as int,
                    hi as int,
                    width as int,
                    i,
                ));
            }
        } else {
            assert forall|i: int| 0 <= i < SELECT_BUCKETS implies #[trigger] counts@[i]
                == cell_count(all.take(seen + 1), lo as int, hi as int, width as int, i) by {
                lemma_cell_step(
                    all.take(seen),
                    key as int,
                    lo as int,
                    hi as int,
                    width as int,
                    i,
                );
            }
        }
        proof {
            seen = seen + 1;
        }
    }
    assert(all.take(seen) == all);
    Ok(counts)
}

/// The smallest and the largest key, and how many keys there are.
fn key_range<S: TickSource + ?Sized>(
    source: &S,
    start: usize,
    end: usize,
    keying: Keying,
) -> (range: Result<(u128, u128)>)
    requires
        ticks::deltas_fit(source.ticks()),
        ticks::deltas(ticks::clamped(source.ticks(), start as int, end as int)).len() > 0,
    ensures
        range is Err ==> source.may_fail(),
        range matches Ok(r) ==> {
            let all = keying.keys(
                ticks::deltas(ticks::clamped(source.ticks(), start as int, end as int)),
            );
            &&& r.0 <= r.1
            &&& rank::count_below(all, r.0 as int) == 0
            &&& rank::count_below(all, r.1 + 1) == all.len()
        },
{
    let ghost deltas: Seq<int> = ticks::deltas(
        ticks::clamped(source.ticks(), start as int, end as int),
    );
    let ghost all: Seq<int> = keying.keys(deltas);
    let mut lo: u128 = u128::MAX;
    let mut hi: u128 = 0;
    let mut cursor: DeltaCursor<S> = match DeltaCursor::new(source, start, end) {
        Ok(cursor) => cursor,
        Err(error) => {
            return Err(error);
        },
    };
    let ghost mut seen: int = 0;
    proof {
        assert(deltas.skip(0) == deltas);
    }
    loop
        invariant
            cursor.wf(),
            cursor.may_fail() == source.may_fail(),
            0 <= seen <= deltas.len(),
            all == keying.keys(deltas),
            cursor.rest() == deltas.skip(seen),
            seen > 0 ==> lo <= hi,
            forall|i: int| 0 <= i < seen ==> lo <= #[trigger] all[i] <= hi,
        ensures
            seen == deltas.len(),
        decreases deltas.len() - seen,
    {
        let delta: i128 = match cursor.next_delta() {
            Ok(Some(delta)) => delta,
            Ok(None) => {
                break;
            },
            Err(error) => {
                return Err(error);
            },
        };
        let key: u128 = keying.key(delta);
        proof {
            assert(all[seen] == key);
            assert(deltas.skip(seen).skip(1) == deltas.skip(seen + 1));
        }
        if key < lo {
            lo = key;
        }
        if key > hi {
            hi = key;
        }
        proof {
            seen = seen + 1;
        }
    }
    proof {
        lemma_count_at_ends(all, lo as int, hi as int);
    }
    Ok((lo, hi))
}

proof fn lemma_count_at_ends(s: Seq<int>, lo: int, hi: int)
    requires
        forall|i: int| 0 <= i < s.len() ==> lo <= #[trigger] s[i] <= hi,
    ensures
        rank::count_below(s, lo) == 0,
        rank::count_below(s, hi + 1) == s.len(),
    decreases s.len(),
{
    if s.len() > 0 {
        assert forall|i: int| 0 <= i < s.drop_last().len() implies lo <= #[trigger] s.drop_last()[i]
            <= hi by {
            assert(s.drop_last()[i] == s[i]);
        }
        assert(s.last() == s[s.len() - 1]);
        lemma_count_at_ends(s.drop_last(), lo, hi);
    }
}

/// The `k`-th smallest key, exactly: at most `k` keys are below it and more
/// than `k` are not above it.
///
/// One pass finds the range of the keys. Each further pass counts the keys of
/// the surviving range in [`SELECT_BUCKETS`] cells and keeps the one cell that
/// the `k`-th key falls into, until a single key is left.
fn select_kth_key<S: TickSource + ?Sized>(
    source: &S,
    start: usize,
    end: usize,
    keying: Keying,
    k: usize,
) -> (key: Result<u128>)
    requires
        ticks::deltas_fit(source.ticks()),
        k < ticks::deltas(ticks::clamped(source.ticks(), start as int, end as int)).len(),
    ensures
        key is Err ==> source.may_fail(),
        key matches Ok(v) ==> {
            let all = keying.keys(
                ticks::deltas(ticks::clamped(source.ticks(), start as int, end as int)),
            );
            rank::count_below(all, v as int) <= k < rank::count_below(all, v + 1)
        },
{
    let ghost all: Seq<int> = keying.keys(
        ticks::deltas(ticks::clamped(source.ticks(), start as int, end as int)),
    );
    let total: usize = source.tick_count();
    let range: (u128, u128) = match key_range(source, start, end, keying) {
        Ok(range) => range,
        Err(error) => {
            return Err(error);
        },
    };
    let mut lo: u128 = range.0;
    let mut hi: u128 = range.1;
    let mut rank_below: usize = 0;
    while lo < hi
        invariant
            ticks::deltas_fit(source.ticks()),
            all == keying.keys(
                ticks::deltas(ticks::clamped(source.ticks(), start as int, end as int)),
            ),
            all.len() <= total,
            k < all.len(),
            lo <= hi,
            rank_below == rank::count_below(all, lo as int),
            rank_below <= k < rank::count_below(all, hi + 1),
        decreases hi - lo,
    {
        let width: u128 = (hi - lo) / (SELECT_BUCKETS as u128) + 1;
        let counts: Vec<usize> = match histogram(source, start, end, keying, lo, hi, width) {
            Ok(counts) => counts,
            Err(error) => {
                return Err(error);
            },
        };
        let mut cumulative: usize = rank_below;
        let mut cell: usize = 0;
        proof {
            assert(0 * width == 0) by (nonlinear_arith);
            lemma_no_keys_left(all, lo as int, hi as int, width as int);
            rank::lemma_count_at_most_len(
                all,
                cell_start(lo as int, hi as int, width as int, 1),
            );
        }
        while cumulative + counts[cell] <= k
            invariant
                lo < hi,
                width > 0,
                k < all.len() <= total,
                k < rank::count_below(all, hi + 1),
                counts@.len() == SELECT_BUCKETS,
                cell < SELECT_BUCKETS,
                forall|b: int|
                    0 <= b < SELECT_BUCKETS ==> #[trigger] counts@[b] == cell_count(
                        all,
                        lo as int,
                        hi as int,
                        width as int,
                        b,
                    ),
                cell_start(lo as int, hi as int, width as int, SELECT_BUCKETS as int) == hi + 1,
                cumulative == rank::count_below(
                    all,
                    cell_start(lo as int, hi as int, width as int, cell as int),
                ),
                cumulative <= k,
                cumulative + counts@[cell as int] <= all.len(),
            decreases SELECT_BUCKETS - cell,
        {
            cumulative = cumulative + counts[cell];
            cell = cell + 1;
            proof {
                rank::lemma_count_at_most_len(
                    all,
                    cell_start(lo as int, hi as int, width as int, cell + 1),
                );
            }
        }
        proof {
            lemma_narrowed(all, lo as int, hi as int, width as int, cell as int);
        }
        let first: u128 = lo + (cell as u128) * width;
        let last: u128 = if hi - first >= width {
            first + (width - 1)
        } else {
            hi
        };
        proof {
            assert((cell + 1) * width == cell * width + width) by (nonlinear_arith);
        }
        lo = first;
        hi = last;
        rank_below = cumulative;
    }
    Ok(lo)
}

/// The cells cover the whole range.
proof fn lemma_no_keys_left(all: Seq<int>, lo: int, hi: int, width: int)
    requires
        lo <= hi,
        width == (hi - lo) / (SELECT_BUCKETS as int) + 1,
    ensures
        cell_start(lo, hi, width, SELECT_BUCKETS as int) == hi + 1,
        hi - lo < SELECT_BUCKETS * width,
{
}

/// A cell that holds a key lies inside the range, and is narrower than it.
proof fn lemma_narrowed(all: Seq<int>, lo: int, hi: int, width: int, cell: int)
    requires
        lo < hi,
        width == (hi - lo) / (SELECT_BUCKETS as int) + 1,
        0 <= cell,
        cell_count(all, lo, hi, width, cell) > 0,
    ensures
        lo + cell * width <= hi,
        cell * width >= 0,
        width <= hi - lo,
{
    assert((cell + 1) * width == cell * width + width) by (nonlinear_arith);
    assert(cell * width >= 0) by (nonlinear_arith)
        requires
            cell >= 0,
            width > 0,
    ;
}

/// A median that is `floor`, or `floor` and a half.
#[derive(Debug, Clone, Copy, PartialEq, Eq, Structural)]
pub struct Median {
    pub floor: i128,
    pub half: bool,
}

impl Median {
    /// Twice the median.
    pub open spec fn doubled(self) -> int {
        2 * self.floor + (if self.half {
            1int
        } else {
            0int
        })
    }
}

/// The mean of two middle keys.
fn mean_of_keys(lower: u128, upper: u128) -> (median: Median)
    ensures
        median.doubled() == lower + upper - 2 * KEY_OFFSET,
{
    let odd: u128 = lower % 2 + upper % 2;
    let key: u128 = lower / 2 + upper / 2 + odd / 2;
    Median { floor: delta_from_key(key), half: odd % 2 == 1 }
}

/// The median difference of the ticks `start..end`, or `None` where there is
/// no difference at all.
pub fn median_delta<S: TickSource + ?Sized>(
    source: &S,
    start: usize,
    end: usize,
) -> (median: Result<Option<Median>>)
    requires
        ticks::deltas_fit(source.ticks()),
    ensures
        median is Err ==> source.may_fail(),
        median matches Ok(None) ==> ticks::deltas(
            ticks::clamped(source.ticks(), start as int, end as int),
        ).len() == 0,
        median matches Ok(Some(m)) ==> {
            let deltas = ticks::deltas(
                ticks::clamped(source.ticks(), start as int, end as int),
            );
            &&& deltas.len() > 0
            &&& m.doubled() == rank::doubled_median(deltas)
        },
{
    let ghost deltas: Seq<int> = ticks::deltas(
        ticks::clamped(source.ticks(), start as int, end as int),
    );
    let count: usize = delta_count(start, end, source.tick_count());
    assert(count == deltas.len());
    if count == 0 {
        return Ok(None);
    }
    let upper: u128 = match select_kth_key(source, start, end, Keying::Delta, count / 2) {
        Ok(key) => key,
        Err(error) => {
            return Err(error);
        },
    };
    let lower: u128 = if count % 2 == 1 {
        upper
    } else {
        match select_kth_key(source, start, end, Keying::Delta, count / 2 - 1) {
            Ok(key) => key,
            Err(error) => {
                return Err(error);
            },
        }
    };
    proof {
        let keys = Keying::Delta.keys(deltas);
        rank::lemma_scaled_rank(
            keys,
            deltas,
            1,
            -(KEY_OFFSET as int),
            (count / 2) as int,
            upper as int,
        );
        rank::lemma_scaled_rank(
            keys,
            deltas,
            1,
            -(KEY_OFFSET as int),
            (count - 1) as int / 2,
            lower as int,
        );
    }
    Ok(Some(mean_of_keys(lower, upper)))
}

/// Whether every difference of the ticks `start..end` is zero.
fn all_deltas_zero<S: TickSource + ?Sized>(
    source: &S,
    start: usize,
    end: usize,
) -> (zero: Result<bool>)
    requires
        ticks::deltas_fit(source.ticks()),
    ensures
        zero is Err ==> source.may_fail(),
        zero matches Ok(z) ==> {
            let deltas = ticks::deltas(
                ticks::clamped(source.ticks(), start as int, end as int),
            );
            z == forall|i: int| 0 <= i < deltas.len() ==> #[trigger] deltas[i] == 0
        },
{
    let ghost deltas: Seq<int> = ticks::deltas(
        ticks::clamped(source.ticks(), start as int, end as int),
    );
    let mut cursor: DeltaCursor<S> = match DeltaCursor::new(source, start, end) {
        Ok(cursor) => cursor,
        Err(error) => {
            return Err(error);
        },
    };
    let ghost mut seen: int = 0;
    let mut zero: bool = true;
    proof {
        assert(deltas.skip(0) == deltas);
    }
    loop
        invariant
            cursor.wf(),
            cursor.may_fail() == source.may_fail(),
            0 <= seen <= deltas.len(),
            cursor.rest() == deltas.skip(seen),
            zero == forall|i: int| 0 <= i < seen ==> #[trigger] deltas[i] == 0,
        ensures
            seen == deltas.len(),
        decreases deltas.len() - seen,
    {
        let delta: i128 = match cursor.next_delta() {
            Ok(Some(delta)) => delta,
            Ok(None) => {
                break;
            },
            Err(error) => {
                return Err(error);
            },
        };
        proof {
            assert(deltas[seen] == delta);
            assert(deltas.skip(seen).skip(1) == deltas.skip(seen + 1));
        }
        if delta != 0 {
            zero = false;
        }
        proof {
            seen = seen + 1;
        }
    }
    Ok(zero)
}

/// Whether the median absolute deviation of the differences of the ticks
/// `start..end` is at most a hundredth of their median's magnitude.
pub fn is_uniform<S: TickSource + ?Sized>(source: &S, start: usize, end: usize) -> (uniform: Result<
    bool,
>)
    requires
        ticks::deltas_fit(source.ticks()),
    ensures
        uniform is Err ==> source.may_fail(),
        uniform matches Ok(u) ==> u == is_uniform_spec(
            ticks::clamped(source.ticks(), start as int, end as int),
        ),
{
    let ghost deltas: Seq<int> = ticks::deltas(
        ticks::clamped(source.ticks(), start as int, end as int),
    );
    let median: Median = match median_delta(source, start, end) {
        Ok(Some(median)) => median,
        Ok(None) => {
            return Ok(true);
        },
        Err(error) => {
            return Err(error);
        },
    };
    if median.floor == 0 && !median.half {
        return all_deltas_zero(source, start, end);
    }
    let count: usize = delta_count(start, end, source.tick_count());
    assert(count == deltas.len());
    let keying: Keying = Keying::Deviation { floor: median.floor, half: median.half };
    let upper: u128 = match select_kth_key(source, start, end, keying, count / 2) {
        Ok(key) => key,
        Err(error) => {
            return Err(error);
        },
    };
    let lower: u128 = if count % 2 == 1 {
        upper
    } else {
        match select_kth_key(source, start, end, keying, count / 2 - 1) {
            Ok(key) => key,
            Err(error) => {
                return Err(error);
            },
        }
    };
    let half: u128 = if median.half {
        1
    } else {
        0
    };
    proof {
        let keys = keying.keys(deltas);
        let deviations = doubled_deviations(deltas);
        assert forall|i: int| 0 <= i < keys.len() implies #[trigger] deviations[i] == 2 * keys[i]
            + half by {
            assert(keys[i] == keying.key_of(deltas[i]));
        }
        rank::lemma_scaled_rank(
            keys,
            deviations,
            2,
            half as int,
            (count / 2) as int,
            upper as int,
        );
        rank::lemma_scaled_rank(
            keys,
            deviations,
            2,
            half as int,
            (count - 1) as int / 2,
            lower as int,
        );
    }
    let magnitude: u128 = if median.floor >= 0 {
        median.floor as u128
    } else if median.half {
        (-(median.floor + 1)) as u128
    } else {
        (-(median.floor + 1)) as u128 + 1
    };
    let allowed: u128 = magnitude / 50;
    if lower > allowed || upper > allowed {
        return Ok(false);
    }
    Ok(lower + upper + half <= allowed)
}

/// Whether `delta` exceeds ten times the median.
fn is_gap(delta: i128, median: Median) -> (gap: bool)
    ensures
        gap == (2 * delta > GAP_MULTIPLE_OF_MEDIAN * median.doubled()),
{
    let extra: i128 = if median.half {
        5
    } else {
        0
    };
    match (
        delta.checked_div_euclid(GAP_MULTIPLE_OF_MEDIAN),
        delta.checked_rem_euclid(GAP_MULTIPLE_OF_MEDIAN),
    ) {
        (Some(tenth), Some(rest)) => median.floor < tenth || (median.floor == tenth && rest
            > extra),
        _ => false,
    }
}

/// Every segment that ends at `limit` at the latest is uniform.
spec fn segments_uniform_until(ticks: Seq<i128>, limit: int) -> bool {
    forall|start: int, end: int| #[trigger]
        is_segment(ticks, start, end) && end <= limit ==> is_uniform_spec(
            ticks.subrange(start, end),
        )
}

/// `start` is where the segment that the sample `at` belongs to begins.
spec fn opens_segment(ticks: Seq<i128>, start: int, at: int) -> bool {
    let deltas = ticks::deltas(ticks);
    &&& 0 <= start <= at < ticks.len()
    &&& start == 0 || is_gap_spec(deltas[start - 1], deltas)
    &&& forall|i: int| start <= i < at ==> !is_gap_spec(#[trigger] deltas[i], deltas)
}

/// Segments do not overlap: the only one that ends behind `start`, at `at + 1`
/// at the latest, is the one from `start` to there.
proof fn lemma_closing_segment(ticks: Seq<i128>, start: int, at: int)
    requires
        opens_segment(ticks, start, at),
        at + 1 == ticks.len() || is_gap_spec(ticks::deltas(ticks)[at], ticks::deltas(ticks)),
    ensures
        is_segment(ticks, start, at + 1),
        segments_uniform_until(ticks, at + 1) <==> segments_uniform_until(ticks, start)
            && is_uniform_spec(ticks.subrange(start, at + 1)),
{
    let deltas = ticks::deltas(ticks);
    assert(is_segment(ticks, start, at + 1));
    if segments_uniform_until(ticks, start) && is_uniform_spec(ticks.subrange(start, at + 1)) {
        assert forall|a: int, b: int| #[trigger]
            is_segment(ticks, a, b) && b <= at + 1 implies is_uniform_spec(
            ticks.subrange(a, b),
        ) by {
            if b > start {
                if b < at + 1 {
                    assert(!is_gap_spec(deltas[b - 1], deltas));
                }
                if a < start {
                    assert(!is_gap_spec(deltas[start - 1], deltas));
                }
                if a > start {
                    assert(!is_gap_spec(deltas[a - 1], deltas));
                }
            }
        }
    }
}

proof fn lemma_gaps_at_most(ticks: Seq<i128>, n: int)
    requires
        0 <= n,
    ensures
        gaps_before(ticks, n).len() <= n,
    decreases n,
{
    if n > 0 {
        lemma_gaps_at_most(ticks, n - 1);
    }
}

/// One median and one pass over the differences: counts the gaps, accounts
/// for backward steps and repeats, and checks each segment between gaps as
/// soon as it closes.
fn scan_distribution<S: TickSource + ?Sized>(source: &S) -> (stats: Result<TimeAxisStats>)
    requires
        ticks::deltas_fit(source.ticks()),
    ensures
        stats is Err ==> source.may_fail(),
        stats matches Ok(s) ==> s == stats_of(source.ticks()),
{
    let ghost axis: Seq<i128> = source.ticks();
    let ghost deltas: Seq<int> = ticks::deltas(axis);
    let tick_count: usize = source.tick_count();
    let mut monotonicity: MonotonicityReport = MonotonicityReport {
        non_monotonic_count: 0,
        duplicate_count: 0,
    };
    proof {
        assert(ticks::clamped(axis, 0, tick_count as int) == axis);
    }
    if tick_count < 2 {
        assert(stats_of(axis).monotonicity == monotonicity);
        return Ok(
            TimeAxisStats {
                gap_count: 0,
                sampling_class: SamplingClass::Uniform,
                monotonicity,
            },
        );
    }
    let median: Median = match median_delta(source, 0, tick_count) {
        Ok(Some(median)) => median,
        Ok(None) => {
            assert(deltas.len() == 0);
            return Ok(
                TimeAxisStats {
                    gap_count: 0,
                    sampling_class: SamplingClass::Uniform,
                    monotonicity,
                },
            );
        },
        Err(error) => {
            return Err(error);
        },
    };
    let mut cursor: DeltaCursor<S> = match DeltaCursor::new(source, 0, tick_count) {
        Ok(cursor) => cursor,
        Err(error) => {
            return Err(error);
        },
    };
    let mut gap_count: usize = 0;
    let mut segment_start: usize = 0;
    let mut every_segment_uniform: bool = true;
    let mut at: usize = 0;
    proof {
        assert(deltas.skip(0) == deltas);
    }
    loop
        invariant
            ticks::deltas_fit(source.ticks()),
            axis == source.ticks(),
            deltas == ticks::deltas(axis),
            tick_count == axis.len(),
            tick_count >= 2,
            median.doubled() == rank::doubled_median(deltas),
            cursor.wf(),
            cursor.may_fail() == source.may_fail(),
            at <= deltas.len(),
            cursor.rest() == deltas.skip(at as int),
            monotonicity.counts(deltas, at as int),
            gap_count == gaps_before(axis, at as int).len(),
            opens_segment(axis, segment_start as int, at as int),
            every_segment_uniform == segments_uniform_until(axis, segment_start as int),
        ensures
            at == deltas.len(),
        decreases deltas.len() - at,
    {
        let delta: i128 = match cursor.next_delta() {
            Ok(Some(delta)) => delta,
            Ok(None) => {
                break;
            },
            Err(error) => {
                return Err(error);
            },
        };
        proof {
            assert(deltas[at as int] == delta);
            assert(deltas.skip(at as int).skip(1) == deltas.skip(at + 1));
            lemma_gaps_at_most(axis, at as int);
            monotonic::lemma_counts_bound(deltas, at as int);
        }
        monotonicity.observe_delta(delta);
        if is_gap(delta, median) {
            gap_count = gap_count + 1;
            proof {
                lemma_closing_segment(axis, segment_start as int, at as int);
                assert(ticks::clamped(axis, segment_start as int, at + 1) == axis.subrange(
                    segment_start as int,
                    at + 1,
                ));
            }
            if every_segment_uniform {
                match is_uniform(source, segment_start, at + 1) {
                    Ok(uniform) => {
                        every_segment_uniform = uniform;
                    },
                    Err(error) => {
                        return Err(error);
                    },
                }
            }
            segment_start = at + 1;
        }
        at = at + 1;
    }
    proof {
        lemma_gaps_at_most(axis, deltas.len() as int);
        monotonic::lemma_counts_bound(deltas, deltas.len() as int);
        lemma_closing_segment(axis, segment_start as int, at as int);
        assert(ticks::clamped(axis, segment_start as int, tick_count as int) == axis.subrange(
            segment_start as int,
            at + 1,
        ));
        assert(segments_uniform_until(axis, at + 1) <==> forall|start: int, end: int| #[trigger]
            is_segment(axis, start, end) ==> is_uniform_spec(axis.subrange(start, end)));
    }
    let sampling_class: SamplingClass = if gap_count == 0 {
        match is_uniform(source, 0, tick_count) {
            Ok(uniform) => if uniform {
                SamplingClass::Uniform
            } else {
                SamplingClass::Irregular
            },
            Err(error) => {
                return Err(error);
            },
        }
    } else {
        if every_segment_uniform {
            match is_uniform(source, segment_start, tick_count) {
                Ok(uniform) => {
                    every_segment_uniform = uniform;
                },
                Err(error) => {
                    return Err(error);
                },
            }
        }
        if every_segment_uniform {
            SamplingClass::SegmentedUniform
        } else {
            SamplingClass::Irregular
        }
    };
    Ok(TimeAxisStats { gap_count, sampling_class, monotonicity })
}

/// Everything a time axis says about how it was sampled, in memory that does
/// not depend on its length. Fails only where reading the ticks does.
pub fn summarize_ticks<S: TickSource + ?Sized>(source: &S) -> (stats: Result<TimeAxisStats>)
    requires
        ticks::deltas_fit(source.ticks()),
    ensures
        stats is Err ==> source.may_fail(),
        stats matches Ok(s) ==> s == stats_of(source.ticks()),
{
    scan_distribution(source)
}

/// There are no more gaps than differences.
proof fn lemma_gap_count(ticks: Seq<i128>, n: int)
    ensures
        0 <= n ==> gaps_before(ticks, n).len() <= n,
    decreases n,
{
    if n > 0 {
        lemma_gap_count(ticks, n - 1);
    }
}

/// The summary of an axis counts the gaps that [`detect_gaps`] lists, names the
/// class that [`classify_sampling`] names, and counts the steps that
/// `detect_monotonicity` counts. An axis without gaps is never segmented, and
/// one with gaps never uniform.
pub proof fn law_summary_agrees_with_its_parts(ticks: Seq<i128>)
    requires
        ticks.len() <= usize::MAX,
    ensures
        stats_of(ticks).gap_count == gaps_of(ticks).len(),
        stats_of(ticks).sampling_class == sampling_class_of(ticks),
        stats_of(ticks).monotonicity == monotonic::monotonicity_of(ticks::deltas(ticks)),
        stats_of(ticks).gap_count == 0 ==> stats_of(ticks).sampling_class
            != SamplingClass::SegmentedUniform,
        stats_of(ticks).gap_count > 0 ==> stats_of(ticks).sampling_class != SamplingClass::Uniform,
{
    lemma_gap_count(ticks, ticks.len() - 1);
}

/// Every gap of `timestamps`, in order: each difference between consecutive
/// ticks that exceeds ten times the median difference.
pub fn detect_gaps(timestamps: &[i128]) -> (gaps: Vec<Gap>)
    requires
        ticks::deltas_fit(timestamps@),
    ensures
        gaps@ == gaps_of(timestamps@),
{
    let ghost deltas: Seq<int> = ticks::deltas(timestamps@);
    let mut gaps: Vec<Gap> = Vec::new();
    proof {
        assert(ticks::clamped(timestamps@, 0, timestamps@.len() as int) == timestamps@);
    }
    let median: Median = match median_delta(timestamps, 0, timestamps.len()) {
        Ok(Some(median)) => median,
        _ => {
            return gaps;
        },
    };
    let mut at: usize = 0;
    while at < timestamps.len() - 1
        invariant
            deltas == ticks::deltas(timestamps@),
            deltas.len() > 0,
            ticks::deltas_fit(timestamps@),
            median.doubled() == rank::doubled_median(deltas),
            at <= timestamps@.len() - 1,
            gaps@ == gaps_before(timestamps@, at as int),
        decreases timestamps@.len() - at,
    {
        assert(i128::MIN <= timestamps@[at + 1] - timestamps@[at as int] <= i128::MAX);
        let delta: i128 = timestamps[at + 1] - timestamps[at];
        assert(deltas[at as int] == delta);
        if is_gap(delta, median) {
            gaps.push(Gap { before_index: at, after_index: at + 1, delta });
        }
        at = at + 1;
    }
    gaps
}

/// How regularly `timestamps` were sampled.
pub fn classify_sampling(timestamps: &[i128]) -> (class: SamplingClass)
    requires
        ticks::deltas_fit(timestamps@),
    ensures
        class == sampling_class_of(timestamps@),
{
    match scan_distribution(timestamps) {
        Ok(stats) => stats.sampling_class,
        Err(_) => SamplingClass::Irregular,
    }
}

} // verus!
