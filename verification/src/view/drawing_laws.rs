//! What a drawing shows of the samples in view, and that it shows all of them.

use vstd::prelude::*;
use crate::dsp::decimation;
use crate::dsp::decimation::{
    law_bucket_is_the_exact_envelope, law_every_sample_is_in_a_column, lemma_column_bounds, Bucket,
};
use crate::series::value;
use crate::view::time;
use crate::view::time::{law_lines_join_single_samples, ColumnDrawing, PlotBar, PlotPoint};

verus! {

/// Sample `i` of the run from `lo` to before `hi` is a reading.
pub open spec fn is_reading(samples: Seq<u64>, lo: int, hi: int, i: int) -> bool {
    lo <= i < hi && !value::is_nan_spec(samples[i])
}

/// The run has a reading.
pub open spec fn has_reading(samples: Seq<u64>, lo: int, hi: int) -> bool {
    exists|i: int| #[trigger] is_reading(samples, lo, hi, i)
}

/// The run has two readings that differ.
pub open spec fn readings_differ(samples: Seq<u64>, lo: int, hi: int) -> bool {
    exists|i: int, j: int| #[trigger]
        is_reading(samples, lo, hi, i) && #[trigger] is_reading(samples, lo, hi, j)
            && value::order_key(samples[i]) < value::order_key(samples[j])
}

/// No reading of the run is smaller than `low`, which is one of them.
pub open spec fn is_smallest(low: u64, samples: Seq<u64>, lo: int, hi: int) -> bool {
    &&& exists|i: int| #[trigger] is_reading(samples, lo, hi, i) && samples[i] == low
    &&& forall|i: int| #[trigger]
        is_reading(samples, lo, hi, i) ==> value::order_key(low) <= value::order_key(samples[i])
}

/// No reading of the run is larger than `high`, which is one of them.
pub open spec fn is_largest(high: u64, samples: Seq<u64>, lo: int, hi: int) -> bool {
    &&& exists|i: int| #[trigger] is_reading(samples, lo, hi, i) && samples[i] == high
    &&& forall|i: int| #[trigger]
        is_reading(samples, lo, hi, i) ==> value::order_key(samples[i]) <= value::order_key(high)
}

/// `tick` lies halfway between `a` and `b`; between two ticks, on the one nearer
/// to zero.
pub open spec fn is_halfway(tick: i128, a: i128, b: i128) -> bool {
    ||| 2 * tick == a + b
    ||| a + b > 0 && 2 * tick + 1 == a + b
    ||| a + b < 0 && 2 * tick - 1 == a + b
}

proof fn lemma_envelope_of_readings(samples: Seq<u64>, timestamps: Seq<i128>, lo: int, hi: int)
    requires
        0 <= lo < hi <= samples.len(),
        samples.len() <= usize::MAX,
    ensures
        ({
            let bucket = decimation::bucket_of(samples, timestamps, lo, hi);
            &&& time::is_gap(bucket) <==> !has_reading(samples, lo, hi)
            &&& has_reading(samples, lo, hi) ==> is_smallest(bucket.min, samples, lo, hi)
            &&& has_reading(samples, lo, hi) ==> is_largest(bucket.max, samples, lo, hi)
            &&& has_reading(samples, lo, hi) ==> (time::is_flat(bucket) <==> !readings_differ(
                samples,
                lo,
                hi,
            ))
        }),
{
    let bucket = decimation::bucket_of(samples, timestamps, lo, hi);
    law_bucket_is_the_exact_envelope(samples, timestamps, lo, hi);
    if has_reading(samples, lo, hi) {
        let r = choose|i: int| #[trigger] is_reading(samples, lo, hi, i);
        assert(lo <= r < hi && !value::is_nan_spec(samples[r]));
        let low = choose|i: int|
            lo <= i < hi && !value::is_nan_spec(samples[i]) && #[trigger] samples[i] == bucket.min;
        let high = choose|i: int|
            lo <= i < hi && !value::is_nan_spec(samples[i]) && #[trigger] samples[i] == bucket.max;
        assert(is_reading(samples, lo, hi, low));
        assert(is_reading(samples, lo, hi, high));
        if readings_differ(samples, lo, hi) {
            let (i, j) = choose|i: int, j: int| #[trigger]
                is_reading(samples, lo, hi, i) && #[trigger] is_reading(samples, lo, hi, j)
                    && value::order_key(samples[i]) < value::order_key(samples[j]);
            assert(value::order_key(bucket.min) <= value::order_key(samples[i]));
            assert(value::order_key(samples[j]) <= value::order_key(bucket.max));
        }
    } else {
        assert forall|i: int| lo <= i < hi implies value::is_nan_spec(#[trigger] samples[i]) by {
            assert(!is_reading(samples, lo, hi, i));
        }
    }
}

/// The summary of a run of samples is a gap if none of them is a reading, and
/// otherwise not: a run in which some samples are missing is shown with the
/// smallest and the largest of the others.
pub proof fn law_a_gap_has_no_reading(
    samples: Seq<u64>,
    timestamps: Seq<i128>,
    lo: int,
    hi: int,
)
    requires
        0 <= lo < hi <= samples.len(),
        samples.len() <= usize::MAX,
    ensures
        ({
            let bucket = decimation::bucket_of(samples, timestamps, lo, hi);
            &&& time::is_gap(bucket) <==> (forall|i: int|
                lo <= i < hi ==> value::is_nan_spec(#[trigger] samples[i]))
            &&& !time::is_gap(bucket) ==> is_smallest(bucket.min, samples, lo, hi)
            &&& !time::is_gap(bucket) ==> is_largest(bucket.max, samples, lo, hi)
        }),
{
    lemma_envelope_of_readings(samples, timestamps, lo, hi);
    if time::is_gap(decimation::bucket_of(samples, timestamps, lo, hi)) {
        assert forall|i: int| lo <= i < hi implies value::is_nan_spec(#[trigger] samples[i]) by {
            assert(!is_reading(samples, lo, hi, i));
        }
    }
}

/// A single sample is a gap if it is missing.
pub proof fn law_a_missing_sample_is_a_gap(samples: Seq<u64>, timestamps: Seq<i128>, i: int)
    ensures
        time::is_gap(decimation::sample_bucket(samples, timestamps, i)) <==> value::is_nan_spec(
            samples[i],
        ),
{
}

/// The places of missing samples in a run.
pub open spec fn missing_places(samples: Seq<u64>, lo: int, hi: int) -> Set<int> {
    vstd::set_lib::set_int_range(lo, hi).filter(|i: int| value::is_nan_spec(samples[i]))
}

proof fn lemma_missing(samples: Seq<u64>, lo: int, hi: int)
    requires
        0 <= lo <= hi <= samples.len(),
    ensures
        missing_places(samples, lo, hi).finite(),
        decimation::range_nan_count(samples, lo, hi) == missing_places(samples, lo, hi).len(),
        decimation::range_nan_count(samples, lo, hi) <= hi - lo,
    decreases hi - lo,
{
    vstd::set_lib::lemma_int_range(lo, hi);
    if lo < hi {
        lemma_missing(samples, lo, hi - 1);
        let before = missing_places(samples, lo, hi - 1);
        let now = missing_places(samples, lo, hi);
        if value::is_nan_spec(samples[hi - 1]) {
            assert(now =~= before.insert(hi - 1));
        } else {
            assert(now =~= before);
        }
    } else {
        assert(missing_places(samples, lo, hi) =~= Set::empty());
    }
}

/// The summary of a run counts its missing samples and keeps the ticks of its
/// first and its last sample.
pub proof fn law_a_summary_counts_what_is_missing(
    samples: Seq<u64>,
    timestamps: Seq<i128>,
    lo: int,
    hi: int,
)
    requires
        0 <= lo < hi <= samples.len(),
        samples.len() <= usize::MAX,
    ensures
        ({
            let bucket = decimation::bucket_of(samples, timestamps, lo, hi);
            &&& missing_places(samples, lo, hi).finite()
            &&& bucket.nan_count == missing_places(samples, lo, hi).len()
            &&& bucket.first_ts == timestamps[lo]
            &&& bucket.last_ts == timestamps[hi - 1]
        }),
{
    lemma_missing(samples, lo, hi);
}

/// Pixel columns lie side by side: the first begins where the view begins, the
/// last ends where it ends, and no column has more than one sample more than
/// another.
pub proof fn law_columns_share_the_samples(lo: int, hi: int, columns: int, column: int)
    requires
        0 <= lo,
        0 < columns < hi - lo,
        0 <= column < columns,
    ensures
        decimation::column_start(lo, hi, columns, 0) == lo,
        decimation::column_start(lo, hi, columns, columns) == hi,
        ({
            let size = decimation::column_start(lo, hi, columns, column + 1)
                - decimation::column_start(lo, hi, columns, column);
            size == (hi - lo) / columns || size == (hi - lo) / columns + 1
        }),
{
    let n = hi - lo;
    assert(0 * n == 0);
    assert((columns * n) / columns == n) by (nonlinear_arith)
        requires
            columns > 0,
    ;
    let a = column * n;
    assert((column + 1) * n == a + n) by (nonlinear_arith)
        requires
            a == column * n,
    ;
    let q = n / columns;
    let r = n % columns;
    let p = a / columns;
    let s = a % columns;
    assert(n == columns * q + r && 0 <= r < columns) by (nonlinear_arith)
        requires
            q == n / columns,
            r == n % columns,
            columns > 0,
    ;
    assert(a == columns * p + s && 0 <= s < columns) by (nonlinear_arith)
        requires
            p == a / columns,
            s == a % columns,
            columns > 0,
    ;
    assert((a + n) / columns == p + q || (a + n) / columns == p + q + 1) by (nonlinear_arith)
        requires
            n == columns * q + r,
            a == columns * p + s,
            0 <= r < columns,
            0 <= s < columns,
            columns > 0,
    ;
}

/// `places` are the pixel columns before `to` that have a reading and whose readings
/// differ, or agree where `differ` does not hold, in their order.
pub open spec fn are_columns_with(
    places: Seq<int>,
    samples: Seq<u64>,
    lo: int,
    hi: int,
    columns: int,
    to: int,
    differ: bool,
) -> bool {
    &&& forall|i: int, j: int| 0 <= i < j < places.len() ==> places[i] < places[j]
    &&& forall|column: int| #[trigger]
        places.contains(column) <==> {
            let from = decimation::column_start(lo, hi, columns, column);
            let end = decimation::column_start(lo, hi, columns, column + 1);
            0 <= column < to && has_reading(samples, from, end) && readings_differ(
                samples,
                from,
                end,
            ) == differ
        }
}

proof fn lemma_push_place(places: Seq<int>, column: int)
    ensures
        forall|other: int| #[trigger]
            places.push(column).contains(other) <==> places.contains(other) || other == column,
{
    let longer = places.push(column);
    assert forall|other: int| #[trigger]
        longer.contains(other) <==> places.contains(other) || other == column by {
        if places.contains(other) {
            let i = choose|i: int| 0 <= i < places.len() && places[i] == other;
            assert(longer[i] == other);
        }
        if other == column {
            assert(longer[places.len() as int] == other);
        }
        if longer.contains(other) {
            let i = choose|i: int| 0 <= i < longer.len() && longer[i] == other;
            if i < places.len() {
                assert(places[i] == other);
            }
        }
    }
}

proof fn lemma_halfway(bucket: Bucket)
    requires
        time::has_middle(bucket),
    ensures
        is_halfway(time::middle(bucket) as i128, bucket.first_ts, bucket.last_ts),
{
}

proof fn lemma_bars(
    samples: Seq<u64>,
    timestamps: Seq<i128>,
    lo: int,
    hi: int,
    columns: int,
    to: int,
) -> (places: (Seq<int>, Seq<int>))
    requires
        0 <= lo,
        hi <= samples.len() <= usize::MAX,
        timestamps.len() == samples.len(),
        time::can_be_centered(timestamps),
        0 < columns < hi - lo,
        0 <= to <= columns,
    ensures
        ({
            let buckets = decimation::viewport_buckets(samples, timestamps, lo, hi, columns);
            let bars = time::bars_of(buckets, to);
            let dots = time::dots_of(buckets, to);
            &&& are_columns_with(places.0, samples, lo, hi, columns, to, true)
            &&& are_columns_with(places.1, samples, lo, hi, columns, to, false)
            &&& are_bars_of(bars, places.0, samples, timestamps, lo, hi, columns)
            &&& are_dots_of(dots, places.1, samples, timestamps, lo, hi, columns)
        }),
    decreases to,
{
    let buckets = decimation::viewport_buckets(samples, timestamps, lo, hi, columns);
    if to <= 0 {
        (Seq::empty(), Seq::empty())
    } else {
        let column = to - 1;
        let (bar_places, dot_places) = lemma_bars(samples, timestamps, lo, hi, columns, column);
        let from = decimation::column_start(lo, hi, columns, column);
        let end = decimation::column_start(lo, hi, columns, column + 1);
        lemma_column_bounds(lo, hi, columns, column);
        let bucket = decimation::bucket_of(samples, timestamps, from, end);
        assert(buckets[column] == bucket);
        lemma_envelope_of_readings(samples, timestamps, from, end);
        assert(i128::MIN / 2 <= timestamps[from] <= i128::MAX / 2);
        assert(i128::MIN / 2 <= timestamps[end - 1] <= i128::MAX / 2);
        lemma_halfway(bucket);
        lemma_push_place(bar_places, column);
        lemma_push_place(dot_places, column);
        assert forall|i: int| 0 <= i < bar_places.len() implies #[trigger] bar_places[i]
            < column by {
            assert(bar_places.contains(bar_places[i]));
        }
        assert forall|i: int| 0 <= i < dot_places.len() implies #[trigger] dot_places[i]
            < column by {
            assert(dot_places.contains(dot_places[i]));
        }
        if !has_reading(samples, from, end) {
            (bar_places, dot_places)
        } else if readings_differ(samples, from, end) {
            (bar_places.push(column), dot_places)
        } else {
            (bar_places, dot_places.push(column))
        }
    }
}

/// One bar for each of the columns, from the smallest to the largest reading in
/// it, halfway between the first and the last tick.
pub open spec fn are_bars_of(
    bars: Seq<PlotBar>,
    places: Seq<int>,
    samples: Seq<u64>,
    timestamps: Seq<i128>,
    lo: int,
    hi: int,
    columns: int,
) -> bool {
    &&& bars.len() == places.len()
    &&& forall|i: int|
        0 <= i < bars.len() ==> {
            let from = decimation::column_start(lo, hi, columns, places[i]);
            let end = decimation::column_start(lo, hi, columns, places[i] + 1);
            &&& is_smallest((#[trigger] bars[i]).low, samples, from, end)
            &&& is_largest(bars[i].high, samples, from, end)
            &&& is_halfway(bars[i].tick, timestamps[from], timestamps[end - 1])
        }
}

/// One dot for each of the columns, at its one reading.
pub open spec fn are_dots_of(
    dots: Seq<PlotPoint>,
    places: Seq<int>,
    samples: Seq<u64>,
    timestamps: Seq<i128>,
    lo: int,
    hi: int,
    columns: int,
) -> bool {
    &&& dots.len() == places.len()
    &&& forall|i: int|
        0 <= i < dots.len() ==> {
            let from = decimation::column_start(lo, hi, columns, places[i]);
            let end = decimation::column_start(lo, hi, columns, places[i] + 1);
            &&& is_smallest((#[trigger] dots[i]).value, samples, from, end)
            &&& is_largest(dots[i].value, samples, from, end)
            &&& is_halfway(dots[i].tick, timestamps[from], timestamps[end - 1])
        }
}

/// With more samples in view than pixel columns, every column with a reading is
/// drawn exactly once, and only those: as a bar from its smallest to its largest
/// reading where its readings differ, as a dot where they agree. Samples that are
/// missing beside the readings change nothing.
pub proof fn law_every_column_with_a_reading_is_drawn_once(
    drawing: ColumnDrawing,
    samples: Seq<u64>,
    ticks: Seq<i128>,
    range: (i128, i128),
    pixel_columns: int,
    lo: int,
    hi: int,
) -> (places: (Seq<int>, Seq<int>))
    requires
        time::is_drawing(drawing, samples, ticks, range, pixel_columns),
        samples.len() <= usize::MAX,
        samples.len() == ticks.len(),
        time::can_be_centered(ticks),
        decimation::is_non_decreasing(ticks),
        decimation::is_lower_cut(ticks, range.0, lo),
        decimation::is_upper_cut(ticks, range.1, hi),
        0 < pixel_columns < hi - lo,
    ensures
        drawing matches ColumnDrawing::Bars { bars, dots } && {
            &&& are_columns_with(places.0, samples, lo, hi, pixel_columns, pixel_columns, true)
            &&& are_columns_with(places.1, samples, lo, hi, pixel_columns, pixel_columns, false)
            &&& are_bars_of(bars@, places.0, samples, ticks, lo, hi, pixel_columns)
            &&& are_dots_of(dots@, places.1, samples, ticks, lo, hi, pixel_columns)
        },
{
    law_lines_join_single_samples(drawing, samples, ticks, range, pixel_columns, lo, hi);
    lemma_bars(samples, ticks, lo, hi, pixel_columns, pixel_columns)
}

/// Every reading in view lies in a column that is drawn, between the ends of its
/// bar or on its dot.
pub proof fn law_every_reading_is_drawn(
    drawing: ColumnDrawing,
    samples: Seq<u64>,
    ticks: Seq<i128>,
    range: (i128, i128),
    pixel_columns: int,
    lo: int,
    hi: int,
    i: int,
)
    requires
        time::is_drawing(drawing, samples, ticks, range, pixel_columns),
        samples.len() <= usize::MAX,
        samples.len() == ticks.len(),
        time::can_be_centered(ticks),
        decimation::is_non_decreasing(ticks),
        decimation::is_lower_cut(ticks, range.0, lo),
        decimation::is_upper_cut(ticks, range.1, hi),
        0 < pixel_columns < hi - lo,
        is_reading(samples, lo, hi, i),
    ensures
        drawing matches ColumnDrawing::Bars { bars, dots } && {
            ||| exists|b: int|
                0 <= b < bars@.len() && value::order_key((#[trigger] bars@[b]).low)
                    <= value::order_key(samples[i]) <= value::order_key(bars@[b].high)
            ||| exists|d: int|
                0 <= d < dots@.len() && value::order_key((#[trigger] dots@[d]).value)
                    == value::order_key(samples[i])
        },
{
    let (bar_places, dot_places) = law_every_column_with_a_reading_is_drawn_once(
        drawing,
        samples,
        ticks,
        range,
        pixel_columns,
        lo,
        hi,
    );
    let column = law_every_sample_is_in_a_column(samples, ticks, lo, hi, pixel_columns, i);
    let from = decimation::column_start(lo, hi, pixel_columns, column);
    let end = decimation::column_start(lo, hi, pixel_columns, column + 1);
    assert(is_reading(samples, from, end, i));
    match drawing {
        ColumnDrawing::Bars { bars, dots } => {
            if readings_differ(samples, from, end) {
                assert(bar_places.contains(column));
                let b = choose|b: int| 0 <= b < bar_places.len() && bar_places[b] == column;
                assert(is_smallest(bars@[b].low, samples, from, end));
                assert(is_largest(bars@[b].high, samples, from, end));
            } else {
                assert(dot_places.contains(column));
                let d = choose|d: int| 0 <= d < dot_places.len() && dot_places[d] == column;
                assert(is_smallest(dots@[d].value, samples, from, end));
                assert(is_largest(dots@[d].value, samples, from, end));
            }
        },
        ColumnDrawing::Lines { .. } => {},
    }
}

/// `runs` are the longest runs of readings in a stretch of samples, each from its
/// first sample to before its end, in their order.
pub open spec fn are_longest_runs(
    runs: Seq<(int, int)>,
    samples: Seq<u64>,
    lo: int,
    hi: int,
) -> bool {
    &&& forall|k: int|
        0 <= k < runs.len() ==> {
            let (from, end) = #[trigger] runs[k];
            &&& lo <= from < end <= hi
            &&& forall|i: int| from <= i < end ==> !value::is_nan_spec(#[trigger] samples[i])
            &&& from > lo ==> value::is_nan_spec(samples[from - 1])
            &&& end < hi ==> value::is_nan_spec(samples[end])
        }
    &&& forall|k: int, l: int| 0 <= k < l < runs.len() ==> runs[k].1 < runs[l].0
    &&& forall|i: int| #[trigger]
        is_reading(samples, lo, hi, i) ==> exists|k: int|
            0 <= k < runs.len() && (#[trigger] runs[k]).0 <= i < runs[k].1
}

/// A line joins the samples of each run: their ticks and their values as they are.
pub open spec fn are_lines_of(
    lines: Seq<Seq<PlotPoint>>,
    runs: Seq<(int, int)>,
    samples: Seq<u64>,
    timestamps: Seq<i128>,
) -> bool {
    &&& lines.len() == runs.len()
    &&& forall|k: int|
        0 <= k < lines.len() ==> (#[trigger] lines[k]).len() == runs[k].1 - runs[k].0
    &&& forall|k: int, i: int|
        0 <= k < lines.len() && 0 <= i < lines[k].len() ==> {
            &&& (#[trigger] lines[k][i]).tick == timestamps[runs[k].0 + i]
            &&& lines[k][i].value == samples[runs[k].0 + i]
        }
}

proof fn lemma_lines(
    samples: Seq<u64>,
    timestamps: Seq<i128>,
    buckets: Seq<Bucket>,
    lo: int,
    n: int,
) -> (runs: Seq<(int, int)>)
    requires
        0 <= lo,
        0 <= n <= buckets.len(),
        lo + buckets.len() <= samples.len(),
        forall|i: int|
            0 <= i < buckets.len() ==> #[trigger] buckets[i] == decimation::sample_bucket(
                samples,
                timestamps,
                lo + i,
            ),
    ensures
        are_longest_runs(runs, samples, lo, lo + n),
        are_lines_of(time::runs_of(buckets, n), runs, samples, timestamps),
        n > 0 && !value::is_nan_spec(samples[lo + n - 1]) ==> runs.len() > 0 && runs.last().1 == lo
            + n,
    decreases n,
{
    if n <= 0 {
        Seq::empty()
    } else {
        let before = lemma_lines(samples, timestamps, buckets, lo, n - 1);
        let at = lo + n - 1;
        let lines = time::runs_of(buckets, n - 1);
        assert(buckets[n - 1] == decimation::sample_bucket(samples, timestamps, at));
        if value::is_nan_spec(samples[at]) {
            assert forall|i: int| #[trigger] is_reading(samples, lo, lo + n, i) implies exists|
                k: int,
            |
                0 <= k < before.len() && (#[trigger] before[k]).0 <= i < before[k].1 by {
                assert(is_reading(samples, lo, lo + n - 1, i));
            }
            before
        } else if n > 1 && !value::is_nan_spec(samples[at - 1]) {
            assert(buckets[n - 2] == decimation::sample_bucket(samples, timestamps, at - 1));
            let last = before.last();
            let runs = before.drop_last().push((last.0, lo + n));
            let k_last = before.len() - 1;
            let now = time::runs_of(buckets, n);
            assert(now =~= lines.drop_last().push(
                lines.last().push(time::point_of(buckets[n - 1])),
            ));
            assert forall|k: int| 0 <= k < runs.len() implies ({
                let (from, end) = #[trigger] runs[k];
                &&& lo <= from < end <= lo + n
                &&& forall|i: int| from <= i < end ==> !value::is_nan_spec(#[trigger] samples[i])
                &&& from > lo ==> value::is_nan_spec(samples[from - 1])
                &&& end < lo + n ==> value::is_nan_spec(samples[end])
            }) by {
                assert(before[k].0 == runs[k].0);
                if k < k_last {
                    assert(before[k] == runs[k]);
                    assert(before[k].1 < before[k_last].0);
                }
            }
            assert forall|k: int, l: int| 0 <= k < l < runs.len() implies runs[k].1
                < runs[l].0 by {
                assert(before[k].1 < before[l].0);
            }
            assert forall|i: int| #[trigger] is_reading(samples, lo, lo + n, i) implies exists|
                k: int,
            |
                0 <= k < runs.len() && (#[trigger] runs[k]).0 <= i < runs[k].1 by {
                if i == at {
                    assert(runs[k_last].0 <= i < runs[k_last].1);
                } else {
                    assert(is_reading(samples, lo, lo + n - 1, i));
                    let k = choose|k: int|
                        0 <= k < before.len() && (#[trigger] before[k]).0 <= i < before[k].1;
                    assert(runs[k].0 <= i < runs[k].1);
                }
            }
            assert forall|k: int, i: int| 0 <= k < now.len() && 0 <= i < now[k].len() implies {
                &&& (#[trigger] now[k][i]).tick == timestamps[runs[k].0 + i]
                &&& now[k][i].value == samples[runs[k].0 + i]
            } by {
                assert(before[k].0 == runs[k].0);
                if k < k_last {
                    assert(now[k] == lines[k]);
                } else if i < lines[k].len() {
                    assert(now[k][i] == lines[k][i]);
                }
            }
            runs
        } else {
            if n > 1 {
                assert(buckets[n - 2] == decimation::sample_bucket(samples, timestamps, at - 1));
            }
            let runs = before.push((at, lo + n));
            let now = time::runs_of(buckets, n);
            assert(now =~= lines.push(seq![time::point_of(buckets[n - 1])]));
            assert forall|k: int| 0 <= k < before.len() implies (#[trigger] before[k]).1 < at by {
                if before[k].1 == at {
                    assert(!value::is_nan_spec(samples[at - 1]));
                }
            }
            assert forall|k: int| 0 <= k < runs.len() implies ({
                let (from, end) = #[trigger] runs[k];
                &&& lo <= from < end <= lo + n
                &&& forall|i: int| from <= i < end ==> !value::is_nan_spec(#[trigger] samples[i])
                &&& from > lo ==> value::is_nan_spec(samples[from - 1])
                &&& end < lo + n ==> value::is_nan_spec(samples[end])
            }) by {
                if k < before.len() {
                    assert(before[k] == runs[k]);
                }
            }
            assert forall|i: int| #[trigger] is_reading(samples, lo, lo + n, i) implies exists|
                k: int,
            |
                0 <= k < runs.len() && (#[trigger] runs[k]).0 <= i < runs[k].1 by {
                if i == at {
                    assert(runs[before.len() as int].0 <= i);
                } else {
                    assert(is_reading(samples, lo, lo + n - 1, i));
                    let k = choose|k: int|
                        0 <= k < before.len() && (#[trigger] before[k]).0 <= i < before[k].1;
                    assert(runs[k].0 <= i < runs[k].1);
                }
            }
            assert forall|k: int, i: int| 0 <= k < now.len() && 0 <= i < now[k].len() implies {
                &&& (#[trigger] now[k][i]).tick == timestamps[runs[k].0 + i]
                &&& now[k][i].value == samples[runs[k].0 + i]
            } by {
                if k < before.len() {
                    assert(now[k] == lines[k]);
                    assert(lines[k][i].tick == timestamps[before[k].0 + i]);
                }
            }
            runs
        }
    }
}

/// With no more samples in view than pixel columns, each run of readings is drawn
/// as one line through all of its samples. Missing samples break the line, and
/// nothing else does.
pub proof fn law_lines_break_at_missing_samples(
    drawing: ColumnDrawing,
    samples: Seq<u64>,
    ticks: Seq<i128>,
    range: (i128, i128),
    pixel_columns: int,
    lo: int,
    hi: int,
) -> (runs: Seq<(int, int)>)
    requires
        time::is_drawing(drawing, samples, ticks, range, pixel_columns),
        samples.len() == ticks.len(),
        decimation::is_non_decreasing(ticks),
        decimation::is_lower_cut(ticks, range.0, lo),
        decimation::is_upper_cut(ticks, range.1, hi),
        lo < hi,
        hi - lo <= pixel_columns,
    ensures
        drawing matches ColumnDrawing::Lines { segments } && {
            &&& are_longest_runs(runs, samples, lo, hi)
            &&& are_lines_of(time::run_views(segments@), runs, samples, ticks)
        },
{
    law_lines_join_single_samples(drawing, samples, ticks, range, pixel_columns, lo, hi);
    let buckets = decimation::viewport_buckets(samples, ticks, lo, hi, pixel_columns);
    lemma_lines(samples, ticks, buckets, lo, hi - lo)
}

/// The levels of a pyramid: a bucket of the first holds eight samples, and one of
/// each further level as many as eight of the level before.
pub proof fn law_levels_grow_by_eight(level: nat)
    ensures
        decimation::level_span(0) == 8,
        decimation::level_span(level + 1) == 8 * decimation::level_span(level),
{
}

/// A range is shown as it was asked for if any of the data lies between its ends
/// or around them; otherwise, and if none was asked for, all of the data is.
pub proof fn law_ranges_beside_the_data_show_all(
    ticks: Seq<i128>,
    requested: Option<(i128, i128)>,
)
    requires
        ticks.len() > 0,
        decimation::is_non_decreasing(ticks),
    ensures
        ({
            let shown = time::queried(ticks, requested);
            let whole = (ticks[0], ticks[ticks.len() - 1]);
            match requested {
                None => shown == whole,
                Some((from, to)) => {
                    &&& (exists|i: int| 0 <= i < ticks.len() && from <= #[trigger] ticks[i] <= to)
                        ==> shown == (from, to)
                    &&& to < ticks[0] || ticks[ticks.len() - 1] < from ==> shown == whole
                    &&& ticks[0] <= to && from <= ticks[ticks.len() - 1] ==> shown == (from, to)
                },
            }
        }),
{
}

/// The tick that is picked is the nearest, and of two as near the earlier.
pub proof fn law_the_nearest_tick_is_picked(ticks: Seq<i128>, target: i128, cut: int, j: int)
    requires
        ticks.len() > 0,
        decimation::is_non_decreasing(ticks),
        decimation::is_lower_cut(ticks, target, cut),
        0 <= j < ticks.len(),
    ensures
        ({
            let picked = time::nearest_at_cut(ticks, target, cut);
            let near = if ticks[picked] < target {
                target - ticks[picked]
            } else {
                ticks[picked] - target
            };
            let other = if ticks[j] < target {
                target - ticks[j]
            } else {
                ticks[j] - target
            };
            &&& 0 <= picked < ticks.len()
            &&& near <= other
            &&& near == other ==> ticks[picked] <= ticks[j]
        }),
{
    if cut > 0 {
        if j < cut {
            assert(ticks[j] <= ticks[cut - 1]);
        }
    }
    if cut < ticks.len() {
        if j >= cut {
            assert(ticks[cut] <= ticks[j]);
        }
    }
}

/// The samples of one bucket of a level of a pyramid.
pub open spec fn bucket_size(level: nat) -> nat
    decreases level,
{
    if level == 0 {
        8
    } else {
        8 * bucket_size((level - 1) as nat)
    }
}

proof fn lemma_bucket_size(level: nat)
    ensures
        bucket_size(level) == decimation::level_span(level),
        bucket_size(level) >= 8,
    decreases level,
{
    if level > 0 {
        lemma_bucket_size((level - 1) as nat);
    }
}

/// A level of a pyramid cuts the samples into runs of its size, the last of which
/// may be shorter, and summarises each. Levels are added until one has fewer than
/// eight buckets.
pub proof fn law_levels_summarise_all_samples(
    pyramid: Seq<Vec<Bucket>>,
    samples: Seq<u64>,
    timestamps: Seq<i128>,
    level: int,
    bucket: int,
)
    requires
        decimation::is_pyramid(pyramid, samples, timestamps),
        0 <= level < pyramid.len(),
        0 <= bucket < pyramid[level]@.len(),
    ensures
        ({
            let size = bucket_size(level as nat) as int;
            let n = samples.len() as int;
            let buckets = pyramid[level]@.len() as int;
            let end = if bucket == buckets - 1 {
                n
            } else {
                bucket * size + size
            };
            &&& (buckets - 1) * size < n <= buckets * size
            &&& 0 <= bucket * size < end <= n
            &&& pyramid[level]@[bucket] == decimation::bucket_of(
                samples,
                timestamps,
                bucket * size,
                end,
            )
            &&& buckets < 8 <==> level == pyramid.len() - 1
        }),
{
    lemma_bucket_size(level as nat);
    let size = bucket_size(level as nat) as int;
    let n = samples.len() as int;
    let buckets = pyramid[level]@.len() as int;
    assert(decimation::is_level(pyramid[level]@, samples, timestamps, size));
    assert((bucket + 1) * size == bucket * size + size) by (nonlinear_arith);
    assert(bucket * size <= (buckets - 1) * size) by (nonlinear_arith)
        requires
            bucket <= buckets - 1,
            size > 0,
    ;
    assert(0 <= bucket * size) by (nonlinear_arith)
        requires
            0 <= bucket,
            size > 0,
    ;
    if bucket < buckets - 1 {
        assert((bucket + 1) * size <= (buckets - 1) * size) by (nonlinear_arith)
            requires
                bucket + 1 <= buckets - 1,
                size > 0,
        ;
    } else {
        assert((bucket + 1) * size == buckets * size);
    }
    if level < pyramid.len() - 1 {
        assert(pyramid[level]@.len() >= 8);
    }
}

/// A single sample is its own summary.
pub proof fn law_one_sample_is_its_own_summary(samples: Seq<u64>, timestamps: Seq<i128>, i: int)
    ensures
        ({
            let bucket = decimation::sample_bucket(samples, timestamps, i);
            &&& bucket.min == samples[i]
            &&& bucket.max == samples[i]
            &&& bucket.first_ts == timestamps[i]
            &&& bucket.last_ts == timestamps[i]
            &&& bucket.nan_count == (if value::is_nan_spec(samples[i]) {
                1
            } else {
                0int
            })
        }),
{
}

} // verus!
