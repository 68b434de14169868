//! What the time-domain view draws of a table: which samples are looked at, how
//! they are joined, and what is written at the cursor and along the axis.
//!
//! Places on the axis are ticks and values are binary64 bit patterns. Turning
//! either into pixels is left to whoever draws.

use vstd::prelude::*;
use crate::dsp::decimation;
use crate::dsp::decimation::{decimate_viewport, lower_cut, upper_cut, Bucket, PYRAMID_FACTOR};
use crate::index::level0::Level0Cache;
use crate::ingest::axis;
use crate::ingest::axis::{Axis, TimeAxis};
use crate::ingest::dataset;
use crate::ingest::dataset::Dataset;
use crate::series::dtype::{Samples, SeriesValues};
use crate::series::samples;
use crate::series::value;
use crate::series::value::{greater, is_finite, is_nan, less_than, lesser};
use crate::series::{Series, ViewKind};
use crate::time::{can_format, format_timestamp, Timestamp, TimestampFormat};

verus! {

/// How far two ticks lie apart.
pub open spec fn distance(a: i128, b: i128) -> int {
    if a < b {
        b - a
    } else {
        a - b
    }
}

/// The nearer of the two ticks around a cut, the earlier one of two that are
/// equally near.
pub open spec fn nearest_at_cut(ticks: Seq<i128>, target: i128, cut: int) -> int {
    if cut == 0 {
        0
    } else if cut == ticks.len() {
        ticks.len() - 1
    } else if distance(ticks[cut - 1], target) <= distance(ticks[cut], target) {
        cut - 1
    } else {
        cut
    }
}

/// The place of a tick near `target`, found by halving. Where the ticks never
/// step backwards there is none nearer.
pub fn nearest_tick_index(ticks: &[i128], target: i128) -> (index: Option<usize>)
    ensures
        match index {
            Some(index) => {
                &&& index < ticks@.len()
                &&& exists|cut: int|
                    #[trigger] decimation::is_lower_cut(ticks@, target, cut) && index
                        == nearest_at_cut(ticks@, target, cut)
                &&& decimation::is_non_decreasing(ticks@) ==> forall|j: int|
                    0 <= j < ticks@.len() ==> distance(ticks@[index as int], target) <= distance(
                        #[trigger] ticks@[j],
                        target,
                    )
            },
            None => ticks@.len() == 0,
        },
{
    if ticks.len() == 0 {
        return None;
    }
    let cut: usize = lower_cut(ticks, target);
    if cut == 0 {
        return Some(0);
    }
    if cut == ticks.len() {
        return Some(ticks.len() - 1);
    }
    if is_nearer(ticks[cut - 1], target, ticks[cut]) {
        Some(cut - 1)
    } else {
        Some(cut)
    }
}

/// Whether the tick below `target` is at least as near to it as the one above.
/// The two distances are compared without being counted: each alone could be
/// too large.
fn is_nearer(below: i128, target: i128, above: i128) -> (nearer: bool)
    requires
        below < target <= above,
    ensures
        nearer == (target - below <= above - target),
{
    match (target.checked_sub(below), above.checked_sub(target)) {
        (Some(before), Some(after)) => before <= after,
        (Some(_), None) => true,
        (None, Some(_)) => false,
        (None, None) => false,
    }
}

/// The first and the last tick, where the requested range is none or lies
/// beside them; else the requested range.
pub open spec fn queried(ticks: Seq<i128>, requested: Option<(i128, i128)>) -> (i128, i128) {
    if ticks.len() == 0 {
        (0, 0)
    } else {
        let whole = (ticks[0], ticks[ticks.len() - 1]);
        match requested {
            None => whole,
            Some((from, to)) => if to < whole.0 || from > whole.1 {
                whole
            } else {
                (from, to)
            },
        }
    }
}

/// The range of ticks to look at. The bounds of a plot that has not drawn
/// anything yet are no range at all, or one beside all data, and a plot of
/// nothing would stay empty for ever.
pub fn query_range(requested: Option<(i128, i128)>, ticks: &[i128]) -> (range: (i128, i128))
    ensures
        range == queried(ticks@, requested),
{
    if ticks.len() == 0 {
        return (0, 0);
    }
    let first: i128 = ticks[0];
    let last: i128 = ticks[ticks.len() - 1];
    match requested {
        None => (first, last),
        Some((from, to)) => if to < first || from > last {
            (first, last)
        } else {
            (from, to)
        },
    }
}

/// Whether the samples in a range were found to be at most one per column.
pub open spec fn is_convergence(
    converged: bool,
    ticks: Seq<i128>,
    range: (i128, i128),
    pixel_columns: int,
) -> bool {
    exists|lo: int, hi: int|
        {
            &&& #[trigger] decimation::is_lower_cut(ticks, range.0, lo)
            &&& #[trigger] decimation::is_upper_cut(ticks, range.1, hi)
            &&& converged == (hi - lo <= pixel_columns)
        }
}

/// Whether a range holds at most one sample for each column.
pub fn is_converged(ticks: &[i128], range: (i128, i128), pixel_columns: usize) -> (converged: bool)
    ensures
        is_convergence(converged, ticks@, range, pixel_columns as int),
{
    let lo: usize = lower_cut(ticks, range.0);
    let hi: usize = upper_cut(ticks, range.1);
    if hi < lo {
        true
    } else {
        hi - lo <= pixel_columns
    }
}

/// A column without any reading: a lone NaN, or an envelope that nothing ever
/// widened.
pub open spec fn is_gap(bucket: Bucket) -> bool {
    value::is_nan_spec(bucket.min) || value::is_nan_spec(bucket.max) || value::less_than_spec(
        bucket.max,
        bucket.min,
    )
}

/// Whether a column has no reading at all.
pub fn bucket_is_gap(bucket: &Bucket) -> (gap: bool)
    ensures
        gap == is_gap(*bucket),
{
    is_nan(bucket.min) || is_nan(bucket.max) || less_than(bucket.max, bucket.min)
}

/// A reading at a tick.
#[derive(Debug, Clone, Copy, PartialEq, Eq, Structural)]
pub struct PlotPoint {
    pub tick: i128,
    pub value: u64,
}

/// The extent of the readings at a tick.
#[derive(Debug, Clone, Copy, PartialEq, Eq, Structural)]
pub struct PlotBar {
    pub tick: i128,
    pub low: u64,
    pub high: u64,
}

/// Half of a number, rounded towards zero.
pub open spec fn half(n: int) -> int {
    if n >= 0 {
        n / 2
    } else {
        -((-n) / 2)
    }
}

/// The tick in the middle of a bucket.
pub open spec fn middle(bucket: Bucket) -> int {
    half(bucket.first_ts + bucket.last_ts)
}

/// The ends of a bucket can be summed.
pub open spec fn has_middle(bucket: Bucket) -> bool {
    i128::MIN <= bucket.first_ts + bucket.last_ts <= i128::MAX
}

fn middle_of(bucket: &Bucket) -> (tick: i128)
    requires
        has_middle(*bucket),
    ensures
        tick == middle(*bucket),
{
    let sum: i128 = bucket.first_ts + bucket.last_ts;
    if sum >= 0 {
        sum / 2
    } else {
        let m: i128 = -(sum + 1);
        -(m / 2 + m % 2)
    }
}

/// The reading of a bucket of one sample.
pub open spec fn point_of(bucket: Bucket) -> PlotPoint {
    PlotPoint { tick: middle(bucket) as i128, value: bucket.min }
}

/// The runs of readings among the first `n` buckets. A gap ends a run, so that
/// no line is ever drawn across one.
pub open spec fn runs_of(buckets: Seq<Bucket>, n: int) -> Seq<Seq<PlotPoint>>
    decreases n,
{
    if n <= 0 {
        Seq::empty()
    } else {
        let before = runs_of(buckets, n - 1);
        if is_gap(buckets[n - 1]) {
            before
        } else if n > 1 && !is_gap(buckets[n - 2]) {
            before.drop_last().push(before.last().push(point_of(buckets[n - 1])))
        } else {
            before.push(seq![point_of(buckets[n - 1])])
        }
    }
}

/// The runs as values.
pub open spec fn run_views(runs: Seq<Vec<PlotPoint>>) -> Seq<Seq<PlotPoint>> {
    Seq::new(runs.len(), |i: int| runs[i]@)
}

/// The middle of every bucket with a reading can be told.
pub open spec fn have_middles(buckets: Seq<Bucket>) -> bool {
    forall|i: int| 0 <= i < buckets.len() ==> has_middle(#[trigger] buckets[i])
}

/// Joins readings to runs that end at every gap.
pub fn bucket_segments(buckets: &[Bucket]) -> (segments: Vec<Vec<PlotPoint>>)
    requires
        have_middles(buckets@),
    ensures
        run_views(segments@) == runs_of(buckets@, buckets@.len() as int),
{
    let mut segments: Vec<Vec<PlotPoint>> = Vec::new();
    let mut current: Vec<PlotPoint> = Vec::new();
    let mut i: usize = 0;
    while i < buckets.len()
        invariant
            have_middles(buckets@),
            i <= buckets@.len(),
            current@.len() > 0 <==> (i > 0 && !is_gap(buckets@[i - 1])),
            current@.len() == 0 ==> run_views(segments@) == runs_of(buckets@, i as int),
            current@.len() > 0 ==> run_views(segments@).push(current@) == runs_of(
                buckets@,
                i as int,
            ),
        decreases buckets@.len() - i,
    {
        let ghost before: Seq<Seq<PlotPoint>> = run_views(segments@);
        let ghost open: Seq<PlotPoint> = current@;
        assert(has_middle(buckets@[i as int]));
        if bucket_is_gap(&buckets[i]) {
            if current.len() > 0 {
                segments.push(current);
                current = Vec::new();
                assert(run_views(segments@) == before.push(open));
            }
        } else {
            let point: PlotPoint = PlotPoint {
                tick: middle_of(&buckets[i]),
                value: buckets[i].min,
            };
            current.push(point);
            proof {
                assert(point == point_of(buckets@[i as int]));
                if open.len() > 0 {
                    assert(before.push(open).drop_last() == before);
                } else {
                    assert(current@ == seq![point]);
                }
            }
        }
        i = i + 1;
    }
    if current.len() > 0 {
        let ghost before: Seq<Seq<PlotPoint>> = run_views(segments@);
        let ghost open: Seq<PlotPoint> = current@;
        segments.push(current);
        assert(run_views(segments@) == before.push(open));
    }
    segments
}

/// The two ends of an envelope are the same number.
pub open spec fn is_flat(bucket: Bucket) -> bool {
    value::order_key(bucket.min) == value::order_key(bucket.max)
}

/// The extents that the first `n` buckets are drawn as.
pub open spec fn bars_of(buckets: Seq<Bucket>, n: int) -> Seq<PlotBar>
    decreases n,
{
    if n <= 0 {
        Seq::empty()
    } else {
        let before = bars_of(buckets, n - 1);
        let bucket = buckets[n - 1];
        if is_gap(bucket) || is_flat(bucket) {
            before
        } else {
            before.push(
                PlotBar { tick: middle(bucket) as i128, low: bucket.min, high: bucket.max },
            )
        }
    }
}

/// The readings that the first `n` buckets are drawn as where there is no
/// extent.
pub open spec fn dots_of(buckets: Seq<Bucket>, n: int) -> Seq<PlotPoint>
    decreases n,
{
    if n <= 0 {
        Seq::empty()
    } else {
        let before = dots_of(buckets, n - 1);
        let bucket = buckets[n - 1];
        if is_gap(bucket) || !is_flat(bucket) {
            before
        } else {
            before.push(point_of(bucket))
        }
    }
}

/// The extents and the lone readings that buckets are drawn as, each on its
/// own: nothing joins one column to the next.
pub fn bucket_bars(buckets: &[Bucket]) -> (drawn: (Vec<PlotBar>, Vec<PlotPoint>))
    requires
        have_middles(buckets@),
    ensures
        drawn.0@ == bars_of(buckets@, buckets@.len() as int),
        drawn.1@ == dots_of(buckets@, buckets@.len() as int),
{
    let mut bars: Vec<PlotBar> = Vec::new();
    let mut dots: Vec<PlotPoint> = Vec::new();
    let mut i: usize = 0;
    while i < buckets.len()
        invariant
            have_middles(buckets@),
            i <= buckets@.len(),
            bars@ == bars_of(buckets@, i as int),
            dots@ == dots_of(buckets@, i as int),
        decreases buckets@.len() - i,
    {
        assert(has_middle(buckets@[i as int]));
        let bucket: &Bucket = &buckets[i];
        if !bucket_is_gap(bucket) {
            let tick: i128 = middle_of(bucket);
            if less_than(bucket.min, bucket.max) {
                bars.push(PlotBar { tick, low: bucket.min, high: bucket.max });
            } else {
                dots.push(PlotPoint { tick, value: bucket.min });
            }
        }
        i = i + 1;
    }
    (bars, dots)
}

/// What one column of a table is drawn as.
pub enum ColumnDrawing {
    /// Every sample on its own, joined by lines that gaps end.
    Lines { segments: Vec<Vec<PlotPoint>> },
    /// One extent for each column of pixels, joined by nothing.
    Bars { bars: Vec<PlotBar>, dots: Vec<PlotPoint> },
}

/// The drawing shows the given buckets.
pub open spec fn shows(drawing: ColumnDrawing, buckets: Seq<Bucket>, converged: bool) -> bool {
    match drawing {
        ColumnDrawing::Lines { segments } => converged && run_views(segments@) == runs_of(
            buckets,
            buckets.len() as int,
        ),
        ColumnDrawing::Bars { bars, dots } => {
            &&& !converged
            &&& bars@ == bars_of(buckets, buckets.len() as int)
            &&& dots@ == dots_of(buckets, buckets.len() as int)
        },
    }
}

/// The drawing is that of the samples in a range.
pub open spec fn is_drawing(
    drawing: ColumnDrawing,
    samples: Seq<u64>,
    ticks: Seq<i128>,
    range: (i128, i128),
    pixel_columns: int,
) -> bool {
    exists|buckets: Seq<Bucket>, converged: bool|
        {
            &&& decimation::is_viewport(buckets, samples, ticks, range, pixel_columns)
            &&& is_convergence(converged, ticks, range, pixel_columns)
            &&& #[trigger] shows(drawing, buckets, converged)
        }
}

/// Any two of the ticks can be summed.
pub open spec fn can_be_centered(ticks: Seq<i128>) -> bool {
    forall|i: int|
        0 <= i < ticks.len() ==> i128::MIN / 2 <= #[trigger] ticks[i] <= i128::MAX / 2
}

/// Whether any two of the ticks can be summed.
pub fn ticks_can_be_centered(ticks: &[i128]) -> (can: bool)
    ensures
        can == can_be_centered(ticks@),
{
    let low: i128 = -0x4000_0000_0000_0000_0000_0000_0000_0000;
    let high: i128 = 0x3fff_ffff_ffff_ffff_ffff_ffff_ffff_ffff;
    let mut i: usize = 0;
    while i < ticks.len()
        invariant
            low == i128::MIN / 2,
            high == i128::MAX / 2,
            i <= ticks@.len(),
            forall|j: int|
                0 <= j < i ==> i128::MIN / 2 <= #[trigger] ticks@[j] <= i128::MAX / 2,
        decreases ticks@.len() - i,
    {
        if ticks[i] < low || ticks[i] > high {
            assert(!(i128::MIN / 2 <= ticks@[i as int] <= i128::MAX / 2));
            return false;
        }
        i = i + 1;
    }
    true
}

/// Buckets of ticks that can be summed have a middle.
proof fn lemma_viewport_has_middles(
    buckets: Seq<Bucket>,
    samples: Seq<u64>,
    ticks: Seq<i128>,
    range: (i128, i128),
    pixel_columns: int,
)
    requires
        decimation::is_viewport(buckets, samples, ticks, range, pixel_columns),
        samples.len() == ticks.len(),
        can_be_centered(ticks),
    ensures
        have_middles(buckets),
{
    let (lo, hi) = choose|lo: int, hi: int|
        {
            &&& #[trigger] decimation::is_lower_cut(ticks, range.0, lo)
            &&& #[trigger] decimation::is_upper_cut(ticks, range.1, hi)
            &&& buckets == decimation::viewport_buckets(samples, ticks, lo, hi, pixel_columns)
        };
    assert forall|c: int| 0 <= c < buckets.len() implies has_middle(#[trigger] buckets[c]) by {
        if hi - lo <= pixel_columns {
            assert(buckets[c] == decimation::sample_bucket(samples, ticks, lo + c));
            assert(i128::MIN / 2 <= ticks[lo + c] <= i128::MAX / 2);
        } else {
            let from = decimation::column_start(lo, hi, pixel_columns, c);
            let to = decimation::column_start(lo, hi, pixel_columns, c + 1);
            decimation::lemma_column_bounds(lo, hi, pixel_columns, c);
            assert(buckets[c] == decimation::bucket_of(samples, ticks, from, to));
            assert(i128::MIN / 2 <= ticks[from] <= i128::MAX / 2);
            assert(i128::MIN / 2 <= ticks[to - 1] <= i128::MAX / 2);
        }
    }
}

/// Draws the samples of a column in a range of ticks on so many columns of
/// pixels.
pub fn draw_column(
    pyramid: &[Vec<Bucket>],
    samples: &[u64],
    ticks: &[i128],
    range: (i128, i128),
    pixel_columns: usize,
) -> (drawing: ColumnDrawing)
    requires
        samples@.len() == ticks@.len(),
        samples@.len() * PYRAMID_FACTOR <= usize::MAX,
        pyramid@.len() == 0 || decimation::is_pyramid(pyramid@, samples@, ticks@),
        can_be_centered(ticks@),
    ensures
        is_drawing(drawing, samples@, ticks@, range, pixel_columns as int),
{
    let converged: bool = is_converged(ticks, range, pixel_columns);
    let buckets: Vec<Bucket> = decimate_viewport(pyramid, samples, ticks, range, pixel_columns);
    proof {
        lemma_viewport_has_middles(buckets@, samples@, ticks@, range, pixel_columns as int);
    }
    let drawing: ColumnDrawing = if converged {
        ColumnDrawing::Lines { segments: bucket_segments(buckets.as_slice()) }
    } else {
        let (bars, dots) = bucket_bars(buckets.as_slice());
        ColumnDrawing::Bars { bars, dots }
    };
    assert(shows(drawing, buckets@, converged));
    drawing
}

/// Where the ticks never step backwards, the drawing joins samples exactly when
/// the query gave each sample in the range a bucket of its own.
pub proof fn law_lines_join_single_samples(
    drawing: ColumnDrawing,
    samples: Seq<u64>,
    ticks: Seq<i128>,
    range: (i128, i128),
    pixel_columns: int,
    lo: int,
    hi: int,
)
    requires
        is_drawing(drawing, samples, ticks, range, pixel_columns),
        decimation::is_non_decreasing(ticks),
        decimation::is_lower_cut(ticks, range.0, lo),
        decimation::is_upper_cut(ticks, range.1, hi),
    ensures
        shows(
            drawing,
            decimation::viewport_buckets(samples, ticks, lo, hi, pixel_columns),
            hi - lo <= pixel_columns,
        ),
{
    assert forall|a: int, b: int|
        decimation::is_lower_cut(ticks, range.0, a) && decimation::is_lower_cut(
            ticks,
            range.0,
            b,
        ) implies a == b by {
        if a < b {
            assert(ticks[a] <= ticks[b - 1]);
        }
        if b < a {
            assert(ticks[b] <= ticks[a - 1]);
        }
    }
    assert forall|a: int, b: int|
        decimation::is_upper_cut(ticks, range.1, a) && decimation::is_upper_cut(
            ticks,
            range.1,
            b,
        ) implies a == b by {
        if a < b {
            assert(ticks[a] <= ticks[b - 1]);
        }
        if b < a {
            assert(ticks[b] <= ticks[a - 1]);
        }
    }
}

/// The samples that a column is drawn from: those of its cache, where it has
/// one; else its own, where they are binary64 already; else the converted copy,
/// and nothing where there is none.
pub fn column_f64_samples<'a>(
    values: &'a SeriesValues,
    converted: Option<&'a Vec<u64>>,
    level0: Option<&'a Level0Cache>,
) -> (samples: &'a [u64])
    ensures
        match level0 {
            Some(cache) => samples@ == cache@.1,
            None => if values is F64 {
                values@ == Samples::F64(samples@)
            } else {
                match converted {
                    Some(converted) => samples@ == converted@,
                    None => samples@.len() == 0,
                }
            },
        },
{
    if let Some(cache) = level0 {
        return cache.samples();
    }
    match values.as_f64_slice() {
        Some(samples) => samples,
        None => match converted {
            Some(converted) => converted.as_slice(),
            None => &[],
        },
    }
}

/// The converted copies of a table's columns: one for each column of numbers
/// that are not binary64 in memory already.
pub open spec fn are_converted(copies: Seq<Option<Vec<u64>>>, dataset: Dataset) -> bool {
    &&& copies.len() == dataset.columns@.len()
    &&& forall|c: int|
        0 <= c < copies.len() ==> {
            let values = dataset.columns@[c].values_spec();
            match #[trigger] copies[c] {
                Some(copy) => {
                    &&& values@.dtype().view_kind_spec() == ViewKind::TimeDomain
                    &&& !(values is F64)
                    &&& copy@ == samples::promotions(values@)
                },
                None => values is F64 || values@.dtype().view_kind_spec()
                    == ViewKind::StateTimeline,
            }
        }
}

/// Converts every column of numbers that are not binary64 in memory already.
pub fn cache_column_samples(dataset: &Dataset) -> (copies: Vec<Option<Vec<u64>>>)
    requires
        dataset.wf(),
    ensures
        are_converted(copies@, *dataset),
{
    let mut copies: Vec<Option<Vec<u64>>> = Vec::new();
    let mut c: usize = 0;
    while c < dataset.columns.len()
        invariant
            dataset.wf(),
            c <= dataset.columns@.len(),
            copies@.len() == c,
            forall|k: int|
                0 <= k < c ==> {
                    let values = dataset.columns@[k].values_spec();
                    match #[trigger] copies@[k] {
                        Some(copy) => {
                            &&& values@.dtype().view_kind_spec() == ViewKind::TimeDomain
                            &&& !(values is F64)
                            &&& copy@ == samples::promotions(values@)
                        },
                        None => values is F64 || values@.dtype().view_kind_spec()
                            == ViewKind::StateTimeline,
                    }
                },
        decreases dataset.columns@.len() - c,
    {
        let series: &Series = &dataset.columns[c];
        assert(dataset.columns@[c as int].wf());
        let copy: Option<Vec<u64>> = match series.values().as_f64_slice() {
            Some(_) => None,
            None => match series.values().to_f64_vec() {
                Some(samples) => {
                    assert(samples@ == samples::promotions(series.values_spec()@));
                    Some(samples)
                },
                None => None,
            },
        };
        copies.push(copy);
        c = c + 1;
    }
    copies
}

/// One column of a table as it is drawn.
pub struct DrawnColumn {
    /// Its place among the columns of the table.
    pub column: usize,
    /// Its place among the columns that are drawn, which is what its colour
    /// goes by.
    pub color: usize,
    pub drawing: ColumnDrawing,
}

/// The places of the first `n` columns that are drawn: those of numbers.
pub open spec fn drawn_columns(columns: Seq<Series>, n: int) -> Seq<int>
    decreases n,
{
    if n <= 0 {
        Seq::empty()
    } else if columns[n - 1].values_spec()@.dtype().view_kind_spec() == ViewKind::TimeDomain {
        drawn_columns(columns, n - 1).push(n - 1)
    } else {
        drawn_columns(columns, n - 1)
    }
}

/// The samples that a column of numbers is drawn from: those of its cache,
/// where it has one, and else its own, promoted to binary64.
pub open spec fn drawn_samples(dataset: Dataset, caches: Seq<Option<Level0Cache>>, c: int) -> Seq<
    u64,
> {
    if 0 <= c < caches.len() {
        match caches[c] {
            Some(cache) => cache@.1,
            None => samples::promotions(dataset.columns@[c].values_spec()@),
        }
    } else {
        samples::promotions(dataset.columns@[c].values_spec()@)
    }
}

/// What is at hand for drawing a table goes together: every column has a sample
/// for each tick, and a pyramid is that of the samples that are drawn.
pub open spec fn can_be_drawn(
    dataset: Dataset,
    pyramids: Seq<Option<Vec<Vec<Bucket>>>>,
    ticks: Seq<i128>,
    caches: Seq<Option<Level0Cache>>,
) -> bool {
    &&& dataset.wf()
    &&& ticks.len() == dataset.time@.len()
    &&& ticks.len() * PYRAMID_FACTOR <= usize::MAX
    &&& can_be_centered(ticks)
    &&& forall|c: int|
        0 <= c < dataset.columns@.len() ==> (#[trigger] drawn_samples(dataset, caches, c)).len()
            == ticks.len()
    &&& forall|c: int|
        0 <= c < pyramids.len() && c < dataset.columns@.len() ==> match #[trigger] pyramids[c] {
            Some(levels) => levels@.len() == 0 || decimation::is_pyramid(
                levels@,
                drawn_samples(dataset, caches, c),
                ticks,
            ),
            None => true,
        }
}

/// Draws every column of numbers of a table. A column of states is drawn
/// elsewhere.
pub fn draw_dataset(
    dataset: &Dataset,
    pyramids: &[Option<Vec<Vec<Bucket>>>],
    ticks: &[i128],
    converted: &[Option<Vec<u64>>],
    caches: &[Option<Level0Cache>],
    range: (i128, i128),
    pixel_columns: usize,
) -> (drawn: Vec<DrawnColumn>)
    requires
        can_be_drawn(*dataset, pyramids@, ticks@, caches@),
        are_converted(converted@, *dataset),
    ensures
        drawn@.len() == drawn_columns(dataset.columns@, dataset.columns@.len() as int).len(),
        forall|i: int|
            0 <= i < drawn@.len() ==> {
                &&& (#[trigger] drawn@[i]).color == i
                &&& drawn@[i].column == drawn_columns(
                    dataset.columns@,
                    dataset.columns@.len() as int,
                )[i]
                &&& is_drawing(
                    drawn@[i].drawing,
                    drawn_samples(*dataset, caches@, drawn@[i].column as int),
                    ticks@,
                    range,
                    pixel_columns as int,
                )
            },
{
    let mut drawn: Vec<DrawnColumn> = Vec::new();
    let none: Vec<Vec<Bucket>> = Vec::new();
    let mut c: usize = 0;
    while c < dataset.columns.len()
        invariant
            can_be_drawn(*dataset, pyramids@, ticks@, caches@),
            are_converted(converted@, *dataset),
            none@.len() == 0,
            c <= dataset.columns@.len(),
            drawn@.len() <= c,
            drawn@.len() == drawn_columns(dataset.columns@, c as int).len(),
            forall|i: int|
                0 <= i < drawn@.len() ==> {
                    &&& (#[trigger] drawn@[i]).color == i
                    &&& drawn@[i].column == drawn_columns(dataset.columns@, c as int)[i]
                    &&& is_drawing(
                        drawn@[i].drawing,
                        drawn_samples(*dataset, caches@, drawn@[i].column as int),
                        ticks@,
                        range,
                        pixel_columns as int,
                    )
                },
        decreases dataset.columns@.len() - c,
    {
        let series: &Series = &dataset.columns[c];
        assert(dataset.columns@[c as int].wf());
        if let ViewKind::TimeDomain = series.view_kind() {
            let ghost bits: Seq<u64> = samples::promotions(series.values_spec()@);
            let copy: Option<&Vec<u64>> = match &converted[c] {
                Some(copy) => Some(copy),
                None => None,
            };
            assert(match converted@[c as int] {
                Some(copy) => copy@ == bits,
                None => series.values_spec() is F64,
            });
            let cache: Option<&Level0Cache> = if c < caches.len() {
                match &caches[c] {
                    Some(cache) => Some(cache),
                    None => None,
                }
            } else {
                None
            };
            let samples: &[u64] = column_f64_samples(series.values(), copy, cache);
            proof {
                if cache is None && series.values_spec() is F64 {
                    assert(samples@ == bits);
                }
                assert(samples@ == drawn_samples(*dataset, caches@, c as int));
            }
            let pyramid: &[Vec<Bucket>] = if c < pyramids.len() {
                match &pyramids[c] {
                    Some(levels) => levels.as_slice(),
                    None => none.as_slice(),
                }
            } else {
                none.as_slice()
            };
            let drawing: ColumnDrawing = draw_column(pyramid, samples, ticks, range, pixel_columns);
            let color: usize = drawn.len();
            drawn.push(DrawnColumn { column: c, color, drawing });
        }
        c = c + 1;
    }
    drawn
}

/// An extent widened to hold the first `n` of the given values that are finite.
pub open spec fn widened(extent: Option<(u64, u64)>, values: Seq<u64>, n: int) -> Option<(u64, u64)>
    decreases n,
{
    if n <= 0 {
        extent
    } else {
        let before = widened(extent, values, n - 1);
        let next = values[n - 1];
        if !value::is_finite_spec(next) {
            before
        } else {
            match before {
                None => Some((next, next)),
                Some((low, high)) => Some(
                    (value::lesser_spec(low, next), value::greater_spec(high, next)),
                ),
            }
        }
    }
}

/// The lowest and the highest finite value among the first `n`.
pub open spec fn finite_extent(values: Seq<u64>, n: int) -> Option<(u64, u64)> {
    widened(None, values, n)
}

/// Both ends of the extent are finite.
pub open spec fn has_finite_ends(extent: Option<(u64, u64)>) -> bool {
    extent matches Some((low, high)) ==> value::is_finite_spec(low) && value::is_finite_spec(high)
}

/// Widens an extent to hold the finite values among the given ones.
fn widen_extent(extent: Option<(u64, u64)>, values: &[u64]) -> (wider: Option<(u64, u64)>)
    requires
        has_finite_ends(extent),
    ensures
        wider == widened(extent, values@, values@.len() as int),
        has_finite_ends(wider),
{
    let mut wider: Option<(u64, u64)> = extent;
    let mut i: usize = 0;
    while i < values.len()
        invariant
            i <= values@.len(),
            wider == widened(extent, values@, i as int),
            has_finite_ends(wider),
        decreases values@.len() - i,
    {
        let next: u64 = values[i];
        if is_finite(next) {
            wider = match wider {
                None => Some((next, next)),
                Some((low, high)) => Some((lesser(low, next), greater(high, next))),
            };
        }
        i = i + 1;
    }
    wider
}

/// The lowest and the highest finite value; NaN and the infinities are left
/// out.
pub fn finite_min_max(values: &[u64]) -> (extent: Option<(u64, u64)>)
    ensures
        extent == finite_extent(values@, values@.len() as int),
{
    widen_extent(None, values)
}

/// The extent of the finite values of the first `n` columns, states left out.
pub open spec fn columns_extent(columns: Seq<Series>, n: int) -> Option<(u64, u64)>
    decreases n,
{
    if n <= 0 {
        None
    } else {
        let before = columns_extent(columns, n - 1);
        let values = columns[n - 1].values_spec()@;
        if values.dtype().view_kind_spec() == ViewKind::TimeDomain {
            widened(before, samples::promotions(values), values.len() as int)
        } else {
            before
        }
    }
}

/// What a view that shows everything has to show: the extent of the places on
/// the axis, and that of the values of every column of numbers. `None` where
/// either has no finite member.
pub fn data_extent(places: &[u64], columns: &[Series]) -> (extent: Option<((u64, u64), (u64, u64))>)
    requires
        forall|c: int| 0 <= c < columns@.len() ==> (#[trigger] columns@[c]).wf(),
    ensures
        extent == (match (
            finite_extent(places@, places@.len() as int),
            columns_extent(columns@, columns@.len() as int),
        ) {
            (Some(x), Some(y)) => Some((x, y)),
            _ => None,
        }),
{
    let x: Option<(u64, u64)> = finite_min_max(places);
    let mut y: Option<(u64, u64)> = None;
    let mut c: usize = 0;
    while c < columns.len()
        invariant
            forall|c: int| 0 <= c < columns@.len() ==> (#[trigger] columns@[c]).wf(),
            c <= columns@.len(),
            y == columns_extent(columns@, c as int),
            has_finite_ends(y),
        decreases columns@.len() - c,
    {
        let series: &Series = &columns[c];
        match series.values().to_f64_vec() {
            Some(promoted) => {
                assert(promoted@ == samples::promotions(series.values_spec()@));
                y = widen_extent(y, promoted.as_slice());
            },
            None => {},
        }
        c = c + 1;
    }
    match (x, y) {
        (Some(x), Some(y)) => Some((x, y)),
        _ => None,
    }
}

/// How many ticks of an axis of timestamps make a second, which is what its
/// first timestamp says. `None` without timestamps.
pub fn absolute_ticks_per_second(time: &TimeAxis) -> (ticks: Option<i128>)
    requires
        time.wf(),
    ensures
        match (time@, ticks) {
            (Axis::Absolute { timestamps, .. }, Some(ticks)) => timestamps.len() > 0 && ticks
                == timestamps[0].unit.per_second(),
            (Axis::Absolute { timestamps, .. }, None) => timestamps.len() == 0,
            (Axis::Progressive { .. }, Some(_)) => false,
            (Axis::Progressive { .. }, None) => true,
        },
{
    match time {
        TimeAxis::Absolute { timestamps, .. } => match timestamps.get(0) {
            Some(first) => Some(first.unit.ticks_per_second()),
            None => None,
        },
        TimeAxis::Progressive { .. } => None,
    }
}

/// The extent holds every finite value and is reached by some.
pub proof fn law_extent_is_tight(values: Seq<u64>, n: int)
    requires
        0 <= n <= values.len(),
    ensures
        match finite_extent(values, n) {
            None => forall|i: int| 0 <= i < n ==> !value::is_finite_spec(#[trigger] values[i]),
            Some((low, high)) => {
                &&& forall|i: int|
                    0 <= i < n && value::is_finite_spec(#[trigger] values[i])
                        ==> value::order_key(low) <= value::order_key(values[i])
                        <= value::order_key(high)
                &&& exists|i: int| 0 <= i < n && #[trigger] values[i] == low
                &&& exists|i: int| 0 <= i < n && #[trigger] values[i] == high
            },
        },
    decreases n,
{
    if n > 0 {
        law_extent_is_tight(values, n - 1);
        match finite_extent(values, n) {
            None => {},
            Some((low, high)) => {
                let next = values[n - 1];
                match finite_extent(values, n - 1) {
                    None => {
                        assert(values[n - 1] == low);
                    },
                    Some((a, b)) => {
                        let i = choose|i: int| 0 <= i < n - 1 && #[trigger] values[i] == a;
                        let j = choose|j: int| 0 <= j < n - 1 && #[trigger] values[j] == b;
                        assert(values[i] == low || values[n - 1] == low);
                        assert(values[j] == high || values[n - 1] == high);
                    },
                }
            },
        }
    }
}

/// What is shown of a time: a text, or a plain number that is still to be
/// written out.
#[derive(Debug, PartialEq, Eq)]
pub enum ShownTime {
    Text(String),
    Number(u64),
}

/// The time at the cursor, in the format that the source wrote it in. There is
/// nothing to show past the end; a timestamp that cannot be written shows
/// nothing either.
pub fn format_cursor_time(time: &TimeAxis, index: usize) -> (shown: Option<ShownTime>)
    requires
        time.wf(),
    ensures
        match (time@, shown) {
            (Axis::Absolute { timestamps, format }, Some(ShownTime::Text(text))) => {
                &&& index < timestamps.len()
                &&& crate::time::format::is_writable(timestamps[index as int], format)
                &&& text@ == crate::time::format::timestamp_text(timestamps[index as int], format)
            },
            (Axis::Absolute { timestamps, format }, None) => index >= timestamps.len()
                || !crate::time::format::is_writable(timestamps[index as int], format),
            (Axis::Progressive { values }, Some(ShownTime::Number(value))) => index < values.len()
                && value == values[index as int],
            (Axis::Progressive { values }, None) => index >= values.len(),
            _ => false,
        },
{
    match time {
        TimeAxis::Absolute { timestamps, format } => match timestamps.get(index) {
            Some(timestamp) => if can_format(&timestamp, *format) {
                Some(ShownTime::Text(format_timestamp(&timestamp, *format)))
            } else {
                None
            },
            None => None,
        },
        TimeAxis::Progressive { values } => match values.get(index) {
            Some(value) => Some(ShownTime::Number(value)),
            None => None,
        },
    }
}

/// The timestamp that a mark at `tick` stands for: it has the unit and the
/// offset of the sample at `nearest`, so that a mark behind a change of offset
/// shows the offset that holds there.
pub open spec fn marked(timestamps: Seq<Timestamp>, tick: i128, nearest: int) -> Timestamp {
    Timestamp {
        ticks: tick,
        unit: timestamps[nearest].unit,
        offset_seconds: timestamps[nearest].offset_seconds,
    }
}

/// The label of a mark at `tick` on an axis of timestamps: the instant of the
/// mark itself, with the offset of a sample near it. Empty where there are no
/// samples, or where the instant cannot be written.
pub fn format_x_axis_tick(
    ticks: &[i128],
    tick: i128,
    timestamps: &axis::Timestamps,
    format: TimestampFormat,
) -> (label: String)
    requires
        timestamps.wf(),
        ticks@.len() == timestamps@.len(),
    ensures
        ticks@.len() == 0 ==> label@.len() == 0,
        ticks@.len() > 0 ==> exists|cut: int|
            {
                let nearest = nearest_at_cut(ticks@, tick, cut);
                &&& #[trigger] decimation::is_lower_cut(ticks@, tick, cut)
                &&& label@ == (if crate::time::format::is_writable(
                    marked(timestamps@, tick, nearest),
                    format,
                ) {
                    crate::time::format::timestamp_text(marked(timestamps@, tick, nearest), format)
                } else {
                    Seq::empty()
                })
            },
{
    match nearest_tick_index(ticks, tick) {
        Some(index) => match timestamps.get(index) {
            Some(nearest) => {
                let timestamp: Timestamp = Timestamp {
                    ticks: tick,
                    unit: nearest.unit,
                    offset_seconds: nearest.offset_seconds,
                };
                assert(timestamp == marked(timestamps@, tick, index as int));
                if can_format(&timestamp, format) {
                    format_timestamp(&timestamp, format)
                } else {
                    String::new()
                }
            },
            None => String::new(),
        },
        None => String::new(),
    }
}

} // verus!
