//! The multi-resolution min/max pyramid and the viewport query that reads it.
//!
//! Level 0 of the pyramid groups [`PYRAMID_FACTOR`] raw samples per bucket and
//! each further level groups [`PYRAMID_FACTOR`] buckets of the level below, so
//! every bucket is the exact envelope of a fixed run of raw samples. Nothing
//! is ever averaged or resampled: a single extreme sample is visible at every
//! zoom level.

use vstd::prelude::*;
use crate::series::value;
use crate::series::value::{greater, is_nan, lesser, NEGATIVE_INFINITY, POSITIVE_INFINITY};

verus! {

/// The exact envelope of a run of consecutive samples. `min` and `max` are
/// binary64 bit patterns (see [`crate::series::value`]).
#[derive(Debug, Clone, Copy, PartialEq, Eq, Structural)]
pub struct Bucket {
    pub min: u64,
    pub max: u64,
    pub first_ts: i128,
    pub last_ts: i128,
    pub nan_count: u64,
}

/// How many samples (or buckets of the level below) one bucket covers.
pub const PYRAMID_FACTOR: usize = 8;

/// The smallest number among `samples[lo..hi]` that is not NaN, the first of
/// several equal ones; positive infinity when there is none.
pub open spec fn range_min(samples: Seq<u64>, lo: int, hi: int) -> u64
    decreases hi - lo,
{
    if hi <= lo {
        POSITIVE_INFINITY
    } else if value::is_nan_spec(samples[hi - 1]) {
        range_min(samples, lo, hi - 1)
    } else {
        value::lesser_spec(range_min(samples, lo, hi - 1), samples[hi - 1])
    }
}

/// The largest number among `samples[lo..hi]` that is not NaN, the first of
/// several equal ones; negative infinity when there is none.
pub open spec fn range_max(samples: Seq<u64>, lo: int, hi: int) -> u64
    decreases hi - lo,
{
    if hi <= lo {
        NEGATIVE_INFINITY
    } else if value::is_nan_spec(samples[hi - 1]) {
        range_max(samples, lo, hi - 1)
    } else {
        value::greater_spec(range_max(samples, lo, hi - 1), samples[hi - 1])
    }
}

/// How many of `samples[lo..hi]` are NaN.
pub open spec fn range_nan_count(samples: Seq<u64>, lo: int, hi: int) -> nat
    decreases hi - lo,
{
    if hi <= lo {
        0
    } else {
        range_nan_count(samples, lo, hi - 1)
            + (if value::is_nan_spec(samples[hi - 1]) { 1nat } else { 0nat })
    }
}

/// The envelope of the non-empty run `lo..hi`.
pub open spec fn bucket_of(samples: Seq<u64>, timestamps: Seq<i128>, lo: int, hi: int) -> Bucket {
    Bucket {
        min: range_min(samples, lo, hi),
        max: range_max(samples, lo, hi),
        first_ts: timestamps[lo],
        last_ts: timestamps[hi - 1],
        nan_count: range_nan_count(samples, lo, hi) as u64,
    }
}

/// The end of the `j`-th run of `span` samples out of `n`.
pub open spec fn run_end(j: int, span: int, n: int) -> int {
    if (j + 1) * span < n {
        (j + 1) * span
    } else {
        n
    }
}

/// `level` holds one bucket per run of `span` samples, the last run possibly
/// shorter, and covers all samples.
pub open spec fn is_level(
    level: Seq<Bucket>,
    samples: Seq<u64>,
    timestamps: Seq<i128>,
    span: int,
) -> bool {
    &&& samples.len() <= level.len() * span
    &&& (level.len() - 1) * span < samples.len()
    &&& forall|j: int|
        0 <= j < level.len() ==> #[trigger] level[j] == bucket_of(
            samples,
            timestamps,
            j * span,
            run_end(j, span, samples.len() as int),
        )
}

/// How many raw samples one bucket of level `k` covers.
pub open spec fn level_span(k: nat) -> nat
    decreases k,
{
    if k == 0 {
        PYRAMID_FACTOR as nat
    } else {
        PYRAMID_FACTOR as nat * level_span((k - 1) as nat)
    }
}

/// `pyramid` is the whole pyramid over `samples`: empty for no samples, and
/// otherwise level upon level until one has fewer than [`PYRAMID_FACTOR`]
/// buckets.
pub open spec fn is_pyramid(
    pyramid: Seq<Vec<Bucket>>,
    samples: Seq<u64>,
    timestamps: Seq<i128>,
) -> bool {
    &&& pyramid.len() == 0 <==> samples.len() == 0
    &&& forall|k: int|
        0 <= k < pyramid.len() ==> is_level(
            (#[trigger] pyramid[k])@,
            samples,
            timestamps,
            level_span(k as nat) as int,
        )
    &&& forall|k: int|
        0 <= k < pyramid.len() - 1 ==> (#[trigger] pyramid[k])@.len() >= PYRAMID_FACTOR
    &&& pyramid.len() > 0 ==> pyramid[pyramid.len() - 1]@.len() < PYRAMID_FACTOR
}

proof fn lemma_range_not_nan(samples: Seq<u64>, lo: int, hi: int)
    ensures
        !value::is_nan_spec(range_min(samples, lo, hi)),
        !value::is_nan_spec(range_max(samples, lo, hi)),
    decreases hi - lo,
{
    if lo < hi {
        lemma_range_not_nan(samples, lo, hi - 1);
    }
}

proof fn lemma_nan_count_bound(samples: Seq<u64>, lo: int, hi: int)
    requires
        lo <= hi,
    ensures
        range_nan_count(samples, lo, hi) <= hi - lo,
    decreases hi - lo,
{
    if lo < hi {
        lemma_nan_count_bound(samples, lo, hi - 1);
    }
}

proof fn lemma_range_split(samples: Seq<u64>, lo: int, mid: int, hi: int)
    requires
        lo <= mid <= hi,
    ensures
        range_min(samples, lo, hi) == value::lesser_spec(
            range_min(samples, lo, mid),
            range_min(samples, mid, hi),
        ),
        range_max(samples, lo, hi) == value::greater_spec(
            range_max(samples, lo, mid),
            range_max(samples, mid, hi),
        ),
        range_nan_count(samples, lo, hi) == range_nan_count(samples, lo, mid) + range_nan_count(
            samples,
            mid,
            hi,
        ),
    decreases hi - mid,
{
    lemma_range_not_nan(samples, lo, mid);
    if mid < hi {
        lemma_range_split(samples, lo, mid, hi - 1);
    }
}

/// The envelope of a run and of the run right after it, merged.
pub open spec fn merged(left: Bucket, right: Bucket) -> Bucket {
    Bucket {
        min: value::lesser_spec(left.min, right.min),
        max: value::greater_spec(left.max, right.max),
        first_ts: left.first_ts,
        last_ts: right.last_ts,
        nan_count: (left.nan_count + right.nan_count) as u64,
    }
}

proof fn lemma_bucket_split(
    samples: Seq<u64>,
    timestamps: Seq<i128>,
    lo: int,
    mid: int,
    hi: int,
)
    requires
        0 <= lo < mid < hi <= samples.len(),
        samples.len() <= usize::MAX,
    ensures
        bucket_of(samples, timestamps, lo, hi) == merged(
            bucket_of(samples, timestamps, lo, mid),
            bucket_of(samples, timestamps, mid, hi),
        ),
        bucket_of(samples, timestamps, lo, mid).nan_count + bucket_of(
            samples,
            timestamps,
            mid,
            hi,
        ).nan_count <= u64::MAX,
{
    lemma_range_split(samples, lo, mid, hi);
    lemma_nan_count_bound(samples, lo, mid);
    lemma_nan_count_bound(samples, mid, hi);
    lemma_nan_count_bound(samples, lo, hi);
}

/// The exact envelope of `samples[lo..hi]`, NaN samples left out of it and
/// counted.
fn raw_range_bucket(samples: &[u64], timestamps: &[i128], lo: usize, hi: usize) -> (bucket: Bucket)
    requires
        samples@.len() == timestamps@.len(),
        lo < hi <= samples@.len(),
    ensures
        bucket == bucket_of(samples@, timestamps@, lo as int, hi as int),
{
    let mut min: u64 = POSITIVE_INFINITY;
    let mut max: u64 = NEGATIVE_INFINITY;
    let mut nan_count: u64 = 0;
    let mut i: usize = lo;
    while i < hi
        invariant
            lo <= i <= hi <= samples@.len(),
            min == range_min(samples@, lo as int, i as int),
            max == range_max(samples@, lo as int, i as int),
            nan_count == range_nan_count(samples@, lo as int, i as int),
            nan_count <= i - lo,
        decreases hi - i,
    {
        let sample: u64 = samples[i];
        if is_nan(sample) {
            nan_count = nan_count + 1;
        } else {
            min = lesser(min, sample);
            max = greater(max, sample);
        }
        i = i + 1;
    }
    Bucket { min, max, first_ts: timestamps[lo], last_ts: timestamps[hi - 1], nan_count }
}

/// Merges the envelopes of two adjacent runs, `left` before `right`.
fn merge_buckets(left: Bucket, right: Bucket) -> (bucket: Bucket)
    requires
        left.nan_count + right.nan_count <= u64::MAX,
    ensures
        bucket == merged(left, right),
{
    Bucket {
        min: lesser(left.min, right.min),
        max: greater(left.max, right.max),
        first_ts: left.first_ts,
        last_ts: right.last_ts,
        nan_count: left.nan_count + right.nan_count,
    }
}

/// Buckets the raw samples from `start` on, in runs of [`PYRAMID_FACTOR`],
/// behind the buckets of `kept`, which already cover everything before it.
fn extend_level_from_samples(
    kept: &mut Vec<Bucket>,
    start: usize,
    samples: &[u64],
    timestamps: &[i128],
)
    requires
        samples@.len() == timestamps@.len(),
        samples@.len() > 0,
        start == old(kept)@.len() * PYRAMID_FACTOR,
        start < samples@.len() || start == samples@.len(),
        forall|j: int|
            0 <= j < old(kept)@.len() ==> #[trigger] old(kept)@[j] == bucket_of(
                samples@,
                timestamps@,
                j * PYRAMID_FACTOR,
                run_end(j, PYRAMID_FACTOR as int, samples@.len() as int),
            ),
    ensures
        is_level(final(kept)@, samples@, timestamps@, PYRAMID_FACTOR as int),
{
    let n: usize = samples.len();
    let mut i: usize = start;
    while i < n
        invariant
            n == samples@.len(),
            n > 0,
            samples@.len() == timestamps@.len(),
            i <= n,
            kept@.len() * PYRAMID_FACTOR >= i,
            (kept@.len() - 1) * PYRAMID_FACTOR < n,
            i < n ==> i == kept@.len() * PYRAMID_FACTOR,
            forall|j: int|
                0 <= j < kept@.len() ==> #[trigger] kept@[j] == bucket_of(
                    samples@,
                    timestamps@,
                    j * PYRAMID_FACTOR,
                    run_end(j, PYRAMID_FACTOR as int, n as int),
                ),
        decreases n - i,
    {
        let end: usize = if n - i > PYRAMID_FACTOR {
            i + PYRAMID_FACTOR
        } else {
            n
        };
        let bucket: Bucket = raw_range_bucket(samples, timestamps, i, end);
        kept.push(bucket);
        i = end;
    }
}

/// Groups the buckets `children[start..]` in runs of [`PYRAMID_FACTOR`]
/// behind the buckets of `kept`, which already cover everything before them.
fn extend_level_from_buckets(
    kept: &mut Vec<Bucket>,
    start: usize,
    children: &Vec<Bucket>,
    Ghost(samples): Ghost<Seq<u64>>,
    Ghost(timestamps): Ghost<Seq<i128>>,
    Ghost(span): Ghost<int>,
)
    requires
        0 < samples.len() <= usize::MAX,
        span > 0,
        is_level(children@, samples, timestamps, span),
        start == old(kept)@.len() * PYRAMID_FACTOR,
        start <= children@.len(),
        forall|j: int|
            0 <= j < old(kept)@.len() ==> #[trigger] old(kept)@[j] == bucket_of(
                samples,
                timestamps,
                j * (PYRAMID_FACTOR * span),
                run_end(j, PYRAMID_FACTOR * span, samples.len() as int),
            ),
    ensures
        is_level(final(kept)@, samples, timestamps, PYRAMID_FACTOR * span),
        final(kept)@.len() * PYRAMID_FACTOR >= children@.len(),
        (final(kept)@.len() - 1) * PYRAMID_FACTOR < children@.len(),
{
    let m: usize = children.len();
    let ghost n: int = samples.len() as int;
    let ghost wide: int = PYRAMID_FACTOR * span;
    let mut i: usize = start;
    while i < m
        invariant
            m == children@.len(),
            n == samples.len(),
            0 < n <= usize::MAX,
            span > 0,
            wide == PYRAMID_FACTOR * span,
            is_level(children@, samples, timestamps, span),
            i <= m,
            kept@.len() * PYRAMID_FACTOR >= i,
            (kept@.len() - 1) * PYRAMID_FACTOR < m,
            i < m ==> i == kept@.len() * PYRAMID_FACTOR,
            forall|j: int|
                0 <= j < kept@.len() ==> #[trigger] kept@[j] == bucket_of(
                    samples,
                    timestamps,
                    j * wide,
                    run_end(j, wide, n),
                ),
        decreases m - i,
    {
        let end: usize = if m - i > PYRAMID_FACTOR {
            i + PYRAMID_FACTOR
        } else {
            m
        };
        let mut group: Bucket = children[i];
        let mut c: usize = i + 1;
        while c < end
            invariant
                i < c <= end <= m,
                m == children@.len(),
                n == samples.len(),
                0 < n <= usize::MAX,
                span > 0,
                is_level(children@, samples, timestamps, span),
                group == bucket_of(samples, timestamps, i * span, run_end(c - 1, span, n)),
            decreases end - c,
        {
            proof {
                lemma_child_bounds(c as int, m as int, span, n);
                lemma_child_bounds(c - 1, m as int, span, n);
                assert(i * span < c * span) by (nonlinear_arith)
                    requires
                        i < c,
                        span > 0,
                ;
                lemma_bucket_split(
                    samples,
                    timestamps,
                    i * span,
                    c * span,
                    run_end(c as int, span, n),
                );
            }
            group = merge_buckets(group, children[c]);
            c = c + 1;
        }
        proof {
            let j = kept@.len() as int;
            assert(i * span == j * wide) by (nonlinear_arith)
                requires
                    i == j * PYRAMID_FACTOR,
                    wide == PYRAMID_FACTOR * span,
            ;
            assert((j + 1) * wide == (i + PYRAMID_FACTOR) * span) by (nonlinear_arith)
                requires
                    i == j * PYRAMID_FACTOR,
                    wide == PYRAMID_FACTOR * span,
            ;
            assert(run_end(end - 1, span, n) == run_end(j, wide, n)) by {
                lemma_child_bounds(end - 1, m as int, span, n);
                if end == m {
                    assert(n <= m * span);
                    assert(m * span <= (i + PYRAMID_FACTOR) * span) by (nonlinear_arith)
                        requires
                            m <= i + PYRAMID_FACTOR,
                            span > 0,
                    ;
                }
            }
        }
        kept.push(group);
        i = end;
    }
    proof {
        let len = kept@.len() as int;
        assert(n <= len * wide) by (nonlinear_arith)
            requires
                n <= m * span,
                m <= len * PYRAMID_FACTOR,
                wide == PYRAMID_FACTOR * span,
                span > 0,
        ;
        assert((len - 1) * wide <= (m - 1) * span) by (nonlinear_arith)
            requires
                (len - 1) * PYRAMID_FACTOR <= m - 1,
                wide == PYRAMID_FACTOR * span,
                span > 0,
        ;
    }
}

/// A run that lies before the last one of a level is full, and every run of
/// a level is non-empty.
proof fn lemma_child_bounds(j: int, m: int, span: int, n: int)
    requires
        0 <= j < m,
        span > 0,
        (m - 1) * span < n <= m * span,
    ensures
        0 <= j * span < run_end(j, span, n) <= n,
        j < m - 1 ==> run_end(j, span, n) == (j + 1) * span,
        j == m - 1 ==> run_end(j, span, n) == n,
{
    assert(0 <= j * span <= (m - 1) * span) by (nonlinear_arith)
        requires
            0 <= j <= m - 1,
            span > 0,
    ;
    assert((j + 1) * span == j * span + span) by (nonlinear_arith);
    if j < m - 1 {
        assert((j + 1) * span <= (m - 1) * span) by (nonlinear_arith)
            requires
                j + 1 <= m - 1,
                span > 0,
        ;
    }
}

proof fn lemma_level_span_positive(k: nat)
    ensures
        level_span(k) >= PYRAMID_FACTOR,
    decreases k,
{
    if k > 0 {
        lemma_level_span_positive((k - 1) as nat);
    }
}

/// Adds levels on top of `levels` until the topmost one has fewer than
/// [`PYRAMID_FACTOR`] buckets.
fn grow_pyramid(
    levels: &mut Vec<Vec<Bucket>>,
    Ghost(samples): Ghost<Seq<u64>>,
    Ghost(timestamps): Ghost<Seq<i128>>,
)
    requires
        0 < samples.len() <= usize::MAX,
        old(levels)@.len() > 0,
        forall|k: int|
            0 <= k < old(levels)@.len() ==> is_level(
                (#[trigger] old(levels)@[k])@,
                samples,
                timestamps,
                level_span(k as nat) as int,
            ),
        forall|k: int|
            0 <= k < old(levels)@.len() - 1 ==> (#[trigger] old(levels)@[k])@.len()
                >= PYRAMID_FACTOR,
    ensures
        is_pyramid(final(levels)@, samples, timestamps),
{
    let mut top: usize = levels[levels.len() - 1].len();
    while top >= PYRAMID_FACTOR
        invariant
            0 < samples.len() <= usize::MAX,
            levels@.len() > 0,
            top == levels@[levels@.len() - 1]@.len(),
            forall|k: int|
                0 <= k < levels@.len() ==> is_level(
                    (#[trigger] levels@[k])@,
                    samples,
                    timestamps,
                    level_span(k as nat) as int,
                ),
            forall|k: int|
                0 <= k < levels@.len() - 1 ==> (#[trigger] levels@[k])@.len() >= PYRAMID_FACTOR,
        decreases top,
    {
        let ghost last: int = levels@.len() - 1;
        proof {
            lemma_level_span_positive(last as nat);
        }
        let mut next: Vec<Bucket> = Vec::new();
        extend_level_from_buckets(
            &mut next,
            0,
            &levels[levels.len() - 1],
            Ghost(samples),
            Ghost(timestamps),
            Ghost(level_span(last as nat) as int),
        );
        top = next.len();
        levels.push(next);
    }
}

/// Builds the whole min/max pyramid over `samples`, whose `i`-th value was
/// taken at `timestamps[i]`.
pub fn build_pyramid(samples: &[u64], timestamps: &[i128]) -> (pyramid: Vec<Vec<Bucket>>)
    requires
        samples@.len() == timestamps@.len(),
    ensures
        is_pyramid(pyramid@, samples@, timestamps@),
{
    let mut levels: Vec<Vec<Bucket>> = Vec::new();
    if samples.len() == 0 {
        return levels;
    }
    let mut base: Vec<Bucket> = Vec::new();
    extend_level_from_samples(&mut base, 0, samples, timestamps);
    levels.push(base);
    grow_pyramid(&mut levels, Ghost(samples@), Ghost(timestamps@));
    levels
}

proof fn lemma_range_prefix(samples: Seq<u64>, len: int, lo: int, hi: int)
    requires
        0 <= lo,
        hi <= len <= samples.len(),
    ensures
        range_min(samples.take(len), lo, hi) == range_min(samples, lo, hi),
        range_max(samples.take(len), lo, hi) == range_max(samples, lo, hi),
        range_nan_count(samples.take(len), lo, hi) == range_nan_count(samples, lo, hi),
    decreases hi - lo,
{
    if lo < hi {
        lemma_range_prefix(samples, len, lo, hi - 1);
    }
}

/// A full run inside a prefix has the same bucket over the whole series.
proof fn lemma_kept_bucket(
    samples: Seq<u64>,
    timestamps: Seq<i128>,
    len: int,
    j: int,
    span: int,
)
    requires
        samples.len() == timestamps.len(),
        0 <= len <= samples.len(),
        0 <= j,
        span > 0,
        (j + 1) * span <= len,
    ensures
        bucket_of(samples.take(len), timestamps.take(len), j * span, run_end(j, span, len))
            == bucket_of(samples, timestamps, j * span, run_end(j, span, samples.len() as int)),
{
    assert((j + 1) * span == j * span + span) by (nonlinear_arith);
    assert(j * span >= 0) by (nonlinear_arith)
        requires
            j >= 0,
            span > 0,
    ;
    lemma_range_prefix(samples, len, j * span, (j + 1) * span);
}

/// The first `complete` buckets of a level over a prefix, which are all full,
/// are the first buckets of the level over the whole series.
proof fn lemma_kept_level(
    level: Seq<Bucket>,
    samples: Seq<u64>,
    timestamps: Seq<i128>,
    len: int,
    complete: int,
    span: int,
)
    requires
        samples.len() == timestamps.len(),
        0 <= len <= samples.len(),
        span > 0,
        0 <= complete,
        complete * span <= len,
        is_level(level, samples.take(len), timestamps.take(len), span),
    ensures
        complete <= level.len(),
        forall|j: int|
            0 <= j < complete ==> #[trigger] level.take(complete)[j] == bucket_of(
                samples,
                timestamps,
                j * span,
                run_end(j, span, samples.len() as int),
            ),
{
    assert(complete <= level.len()) by (nonlinear_arith)
        requires
            complete * span <= len,
            len <= level.len() * span,
            span > 0,
    ;
    assert forall|j: int| 0 <= j < complete implies #[trigger] level.take(complete)[j]
        == bucket_of(samples, timestamps, j * span, run_end(j, span, samples.len() as int)) by {
        assert((j + 1) * span <= complete * span) by (nonlinear_arith)
            requires
                j + 1 <= complete,
                span > 0,
        ;
        lemma_kept_bucket(samples, timestamps, len, j, span);
        assert(level[j] == bucket_of(
            samples.take(len),
            timestamps.take(len),
            j * span,
            run_end(j, span, len),
        ));
    }
}

/// Extends the pyramid of `samples[..previous_len]` to all of `samples`,
/// recomputing only the buckets that new samples can change. The result is
/// what [`build_pyramid`] returns for `samples`.
pub fn extend_pyramid(
    previous: Vec<Vec<Bucket>>,
    previous_len: usize,
    samples: &[u64],
    timestamps: &[i128],
) -> (pyramid: Vec<Vec<Bucket>>)
    requires
        samples@.len() == timestamps@.len(),
        previous_len <= samples@.len(),
        previous_len == 0 || previous@.len() == 0 || is_pyramid(
            previous@,
            samples@.take(previous_len as int),
            timestamps@.take(previous_len as int),
        ),
    ensures
        is_pyramid(pyramid@, samples@, timestamps@),
{
    if samples.len() == 0 {
        return Vec::new();
    }
    if previous_len == 0 || previous.len() == 0 {
        return build_pyramid(samples, timestamps);
    }
    let mut source: Vec<Vec<Bucket>> = previous;
    let ghost before: Seq<Vec<Bucket>> = source@;
    let mut complete: usize = previous_len / PYRAMID_FACTOR;
    assert(samples.len() <= usize::MAX);
    proof {
        lemma_kept_level(
            before[0]@,
            samples@,
            timestamps@,
            previous_len as int,
            complete as int,
            PYRAMID_FACTOR as int,
        );
    }
    let mut base: Vec<Bucket> = Vec::new();
    std::mem::swap(&mut base, &mut source[0]);
    base.truncate(complete);
    assert(base@ == before[0]@.take(complete as int));
    extend_level_from_samples(&mut base, complete * PYRAMID_FACTOR, samples, timestamps);
    proof {
        lemma_level_not_shorter(
            base@,
            before[0]@,
            samples@,
            timestamps@,
            previous_len as int,
            PYRAMID_FACTOR as int,
        );
    }
    let mut levels: Vec<Vec<Bucket>> = Vec::new();
    levels.push(base);

    let mut level: usize = 1;
    while level < source.len()
        invariant
            samples@.len() == timestamps@.len(),
            0 < previous_len <= samples@.len(),
            samples@.len() <= usize::MAX,
            is_pyramid(
                before,
                samples@.take(previous_len as int),
                timestamps@.take(previous_len as int),
            ),
            1 <= level <= source@.len(),
            source@.len() == before.len(),
            forall|k: int| level <= k < before.len() ==> source@[k] == before[k],
            levels@.len() == level,
            complete * level_span((level - 1) as nat) <= previous_len,
            complete <= levels@[level - 1]@.len(),
            forall|k: int|
                0 <= k < level ==> is_level(
                    (#[trigger] levels@[k])@,
                    samples@,
                    timestamps@,
                    level_span(k as nat) as int,
                ),
            forall|k: int|
                0 <= k < level ==> (#[trigger] levels@[k])@.len() >= before[k]@.len(),
        decreases source@.len() - level,
    {
        let level_complete: usize = complete / PYRAMID_FACTOR;
        let ghost span: int = level_span((level - 1) as nat) as int;
        proof {
            lemma_level_span_positive((level - 1) as nat);
            assert(level_complete * (PYRAMID_FACTOR * span) <= complete * span) by (nonlinear_arith)
                requires
                    level_complete * PYRAMID_FACTOR <= complete,
                    span > 0,
            ;
            lemma_kept_level(
                before[level as int]@,
                samples@,
                timestamps@,
                previous_len as int,
                level_complete as int,
                PYRAMID_FACTOR * span,
            );
        }
        let mut kept: Vec<Bucket> = Vec::new();
        std::mem::swap(&mut kept, &mut source[level]);
        kept.truncate(level_complete);
        assert(kept@ == before[level as int]@.take(level_complete as int));
        extend_level_from_buckets(
            &mut kept,
            level_complete * PYRAMID_FACTOR,
            &levels[level - 1],
            Ghost(samples@),
            Ghost(timestamps@),
            Ghost(span),
        );
        proof {
            lemma_level_not_shorter(
                kept@,
                before[level as int]@,
                samples@,
                timestamps@,
                previous_len as int,
                PYRAMID_FACTOR * span,
            );
        }
        levels.push(kept);
        complete = level_complete;
        level = level + 1;
    }
    grow_pyramid(&mut levels, Ghost(samples@), Ghost(timestamps@));
    levels
}

/// A level over more samples has at least as many buckets.
proof fn lemma_level_not_shorter(
    level: Seq<Bucket>,
    previous: Seq<Bucket>,
    samples: Seq<u64>,
    timestamps: Seq<i128>,
    len: int,
    span: int,
)
    requires
        0 <= len <= samples.len(),
        span > 0,
        is_level(level, samples, timestamps, span),
        is_level(previous, samples.take(len), timestamps.take(len), span),
    ensures
        previous.len() <= level.len(),
{
    assert(previous.len() <= level.len()) by (nonlinear_arith)
        requires
            (previous.len() - 1) * span < len,
            len <= samples.len(),
            samples.len() <= level.len() * span,
            span > 0,
    ;
}

/// `index` separates the timestamps below `tick` from the rest: the entry
/// right before it is below `tick`, the entry at it is not.
pub open spec fn is_lower_cut(timestamps: Seq<i128>, tick: i128, index: int) -> bool {
    &&& 0 <= index <= timestamps.len()
    &&& index > 0 ==> timestamps[index - 1] < tick
    &&& index < timestamps.len() ==> timestamps[index] >= tick
}

/// `index` separates the timestamps up to and including `tick` from the rest.
pub open spec fn is_upper_cut(timestamps: Seq<i128>, tick: i128, index: int) -> bool {
    &&& 0 <= index <= timestamps.len()
    &&& index > 0 ==> timestamps[index - 1] <= tick
    &&& index < timestamps.len() ==> timestamps[index] > tick
}

/// The timestamps never step backwards.
pub open spec fn is_non_decreasing(timestamps: Seq<i128>) -> bool {
    forall|i: int, j: int| 0 <= i <= j < timestamps.len() ==> timestamps[i] <= timestamps[j]
}

/// Where a binary search for the first timestamp not below `tick` ends.
pub fn lower_cut(timestamps: &[i128], tick: i128) -> (index: usize)
    ensures
        is_lower_cut(timestamps@, tick, index as int),
{
    let mut low: usize = 0;
    let mut high: usize = timestamps.len();
    while low < high
        invariant
            low <= high <= timestamps@.len(),
            low > 0 ==> timestamps@[low - 1] < tick,
            high < timestamps@.len() ==> timestamps@[high as int] >= tick,
        decreases high - low,
    {
        let middle: usize = low + (high - low) / 2;
        if timestamps[middle] < tick {
            low = middle + 1;
        } else {
            high = middle;
        }
    }
    low
}

/// Where a binary search for the first timestamp above `tick` ends.
pub fn upper_cut(timestamps: &[i128], tick: i128) -> (index: usize)
    ensures
        is_upper_cut(timestamps@, tick, index as int),
{
    let mut low: usize = 0;
    let mut high: usize = timestamps.len();
    while low < high
        invariant
            low <= high <= timestamps@.len(),
            low > 0 ==> timestamps@[low - 1] <= tick,
            high < timestamps@.len() ==> timestamps@[high as int] > tick,
        decreases high - low,
    {
        let middle: usize = low + (high - low) / 2;
        if timestamps[middle] <= tick {
            low = middle + 1;
        } else {
            high = middle;
        }
    }
    low
}

/// The bucket of one raw sample drawn on its own: its value, NaN or not, is
/// both ends of the envelope.
pub open spec fn sample_bucket(samples: Seq<u64>, timestamps: Seq<i128>, i: int) -> Bucket {
    Bucket {
        min: samples[i],
        max: samples[i],
        first_ts: timestamps[i],
        last_ts: timestamps[i],
        nan_count: if value::is_nan_spec(samples[i]) {
            1
        } else {
            0
        },
    }
}

/// Where the `column`-th of `columns` near-equal parts of `lo..hi` begins.
pub open spec fn column_start(lo: int, hi: int, columns: int, column: int) -> int {
    lo + (column * (hi - lo)) / columns
}

/// What a viewport that shows the samples `lo..hi` on `columns` pixel columns
/// draws: every sample on its own when they fit, and otherwise one exact
/// envelope per column, the columns splitting the samples as evenly as
/// possible.
pub open spec fn viewport_buckets(
    samples: Seq<u64>,
    timestamps: Seq<i128>,
    lo: int,
    hi: int,
    columns: int,
) -> Seq<Bucket> {
    if columns <= 0 || hi <= lo {
        Seq::empty()
    } else if hi - lo <= columns {
        Seq::new((hi - lo) as nat, |i: int| sample_bucket(samples, timestamps, lo + i))
    } else {
        Seq::new(
            columns as nat,
            |column: int|
                bucket_of(
                    samples,
                    timestamps,
                    column_start(lo, hi, columns, column),
                    column_start(lo, hi, columns, column + 1),
                ),
        )
    }
}

/// With more samples than columns, consecutive column starts differ, and the
/// last column ends with the range.
pub proof fn lemma_column_bounds(lo: int, hi: int, columns: int, column: int)
    requires
        0 <= lo,
        0 < columns < hi - lo,
        0 <= column < columns,
    ensures
        lo <= column_start(lo, hi, columns, column) < column_start(lo, hi, columns, column + 1)
            <= hi,
{
    let n = hi - lo;
    let a = column * n;
    let b = (column + 1) * n;
    assert(b == a + n) by (nonlinear_arith)
        requires
            a == column * n,
            b == (column + 1) * n,
    ;
    assert(0 <= a) by (nonlinear_arith)
        requires
            a == column * n,
            column >= 0,
            n > 0,
    ;
    assert(b <= columns * n) by (nonlinear_arith)
        requires
            b == (column + 1) * n,
            column + 1 <= columns,
            n > 0,
    ;
    assert(a / columns + 1 <= b / columns) by (nonlinear_arith)
        requires
            b == a + n,
            n >= columns,
            columns > 0,
            a >= 0,
    ;
    assert(b / columns <= n) by (nonlinear_arith)
        requires
            b <= columns * n,
            columns > 0,
            b >= 0,
    ;
    assert(0 <= a / columns) by (nonlinear_arith)
        requires
            a >= 0,
            columns > 0,
    ;
}

/// The span of the topmost level, which fits a machine word because a slice of
/// eight-byte samples never takes up the whole address space.
proof fn lemma_span_fits(
    pyramid: Seq<Vec<Bucket>>,
    samples: Seq<u64>,
    timestamps: Seq<i128>,
    k: nat,
)
    requires
        is_pyramid(pyramid, samples, timestamps),
        samples.len() * PYRAMID_FACTOR <= usize::MAX,
        0 < k <= pyramid.len(),
    ensures
        level_span((k - 1) as nat) <= usize::MAX,
{
    if k > 1 {
        let below = pyramid[k - 2]@;
        let span = level_span((k - 2) as nat) as int;
        lemma_level_span_positive((k - 2) as nat);
        assert(is_level(below, samples, timestamps, span));
        assert(span <= samples.len()) by (nonlinear_arith)
            requires
                (below.len() - 1) * span < samples.len(),
                below.len() >= 8,
                span > 0,
        ;
    } else {
        assert(samples.len() >= 1);
    }
}

/// The exact envelope of the samples `lo..hi`, read from the pyramid's first
/// `levels` levels wherever a bucket lies inside the run, and from finer
/// levels down to the raw samples at its two edges.
fn aggregate_at_level(
    pyramid: &[Vec<Bucket>],
    samples: &[u64],
    timestamps: &[i128],
    levels: usize,
    span: usize,
    lo: usize,
    hi: usize,
) -> (bucket: Bucket)
    requires
        samples@.len() == timestamps@.len(),
        is_pyramid(pyramid@, samples@, timestamps@),
        levels <= pyramid@.len(),
        levels > 0 ==> span == level_span((levels - 1) as nat),
        lo < hi <= samples@.len(),
    ensures
        bucket == bucket_of(samples@, timestamps@, lo as int, hi as int),
    decreases levels,
{
    if levels == 0 {
        return raw_range_bucket(samples, timestamps, lo, hi);
    }
    let n: usize = samples.len();
    let buckets: &Vec<Bucket> = &pyramid[levels - 1];
    let count: usize = buckets.len();
    proof {
        lemma_level_span_positive((levels - 1) as nat);
        if levels > 1 {
            assert(span == PYRAMID_FACTOR * level_span((levels - 2) as nat));
        }
        assert(is_level(buckets@, samples@, timestamps@, span as int));
    }
    let finer: usize = span / PYRAMID_FACTOR;
    let first: usize = lo / span;
    let mut covered: usize = lo;
    let mut result: Option<Bucket> = None;
    let mut index: usize = first;
    proof {
        assert(first * span <= lo < (first + 1) * span) by (nonlinear_arith)
            requires
                first == lo / span,
                span > 0,
        ;
    }
    while covered < hi
        invariant
            samples@.len() == timestamps@.len(),
            n == samples@.len(),
            is_pyramid(pyramid@, samples@, timestamps@),
            0 < levels <= pyramid@.len(),
            span == level_span((levels - 1) as nat),
            span > 0,
            levels > 1 ==> finer == level_span((levels - 2) as nat),
            *buckets == pyramid@[levels - 1],
            count == buckets@.len(),
            is_level(buckets@, samples@, timestamps@, span as int),
            lo < hi <= n,
            lo <= covered <= hi,
            covered < hi ==> index * span <= covered < (index + 1) * span,
            covered > lo && covered < hi ==> covered == index * span,
            covered == lo ==> result is None,
            covered > lo ==> result == Some(
                bucket_of(samples@, timestamps@, lo as int, covered as int),
            ),
        decreases hi - covered,
    {
        assert(index < count) by (nonlinear_arith)
            requires
                index * span <= covered,
                covered < n,
                n <= count * span,
                span > 0,
        ;
        proof {
            lemma_child_bounds(index as int, count as int, span as int, n as int);
        }
        let start: usize = index * span;
        let end: usize = if n - start > span {
            start + span
        } else {
            n
        };
        proof {
            assert((index + 1) * span == start + span) by (nonlinear_arith)
                requires
                    start == index * span,
            ;
            assert(end == run_end(index as int, span as int, n as int));
        }
        let stop: usize = if end < hi {
            end
        } else {
            hi
        };
        let piece: Bucket = if covered == start && end <= hi {
            buckets[index]
        } else {
            aggregate_at_level(pyramid, samples, timestamps, levels - 1, finer, covered, stop)
        };
        result = match result {
            Some(existing) => {
                proof {
                    lemma_bucket_split(
                        samples@,
                        timestamps@,
                        lo as int,
                        covered as int,
                        stop as int,
                    );
                }
                Some(merge_buckets(existing, piece))
            },
            None => Some(piece),
        };
        covered = stop;
        index = index + 1;
        proof {
            assert((index + 1) * span == index * span + span) by (nonlinear_arith);
        }
    }
    match result {
        Some(bucket) => bucket,
        None => raw_range_bucket(samples, timestamps, lo, hi),
    }
}

/// The span of the topmost of `levels` levels.
fn top_span(
    pyramid: &[Vec<Bucket>],
    Ghost(samples): Ghost<Seq<u64>>,
    Ghost(timestamps): Ghost<Seq<i128>>,
) -> (span: usize)
    requires
        is_pyramid(pyramid@, samples, timestamps),
        pyramid@.len() > 0,
        samples.len() * PYRAMID_FACTOR <= usize::MAX,
    ensures
        span == level_span((pyramid@.len() - 1) as nat),
{
    let mut span: usize = PYRAMID_FACTOR;
    let mut k: usize = 1;
    while k < pyramid.len()
        invariant
            is_pyramid(pyramid@, samples, timestamps),
            samples.len() * PYRAMID_FACTOR <= usize::MAX,
            1 <= k <= pyramid@.len(),
            span == level_span((k - 1) as nat),
        decreases pyramid@.len() - k,
    {
        proof {
            lemma_span_fits(pyramid@, samples, timestamps, (k + 1) as nat);
        }
        span = PYRAMID_FACTOR * span;
        k = k + 1;
    }
    span
}

/// The exact envelope of the samples `lo..hi`, using the pyramid where there
/// is one.
fn aggregate_range(
    pyramid: &[Vec<Bucket>],
    samples: &[u64],
    timestamps: &[i128],
    lo: usize,
    hi: usize,
) -> (bucket: Bucket)
    requires
        samples@.len() == timestamps@.len(),
        samples@.len() * PYRAMID_FACTOR <= usize::MAX,
        pyramid@.len() == 0 || is_pyramid(pyramid@, samples@, timestamps@),
        lo < hi <= samples@.len(),
    ensures
        bucket == bucket_of(samples@, timestamps@, lo as int, hi as int),
{
    if pyramid.len() == 0 {
        return raw_range_bucket(samples, timestamps, lo, hi);
    }
    let span: usize = top_span(pyramid, Ghost(samples@), Ghost(timestamps@));
    aggregate_at_level(pyramid, samples, timestamps, pyramid.len(), span, lo, hi)
}

/// The buckets are what is drawn of the samples between the two cuts that a
/// binary search finds for the ends of the range.
pub open spec fn is_viewport(
    buckets: Seq<Bucket>,
    samples: Seq<u64>,
    timestamps: Seq<i128>,
    range: (i128, i128),
    pixel_columns: int,
) -> bool {
    exists|lo: int, hi: int|
        {
            &&& #[trigger] is_lower_cut(timestamps, range.0, lo)
            &&& #[trigger] is_upper_cut(timestamps, range.1, hi)
            &&& buckets == viewport_buckets(samples, timestamps, lo, hi, pixel_columns)
        }
}

/// Resolves the samples whose timestamps lie in `range`, both ends included,
/// into what a plot of `pixel_columns` columns draws of them.
///
/// `pyramid` is the samples' pyramid, or empty, in which case the raw samples
/// are scanned. Fewer samples than columns come back one bucket each, so that
/// zooming in always reaches the individual samples.
pub fn decimate_viewport(
    pyramid: &[Vec<Bucket>],
    samples: &[u64],
    timestamps: &[i128],
    range: (i128, i128),
    pixel_columns: usize,
) -> (buckets: Vec<Bucket>)
    requires
        samples@.len() == timestamps@.len(),
        samples@.len() * PYRAMID_FACTOR <= usize::MAX,
        pyramid@.len() == 0 || is_pyramid(pyramid@, samples@, timestamps@),
    ensures
        is_viewport(buckets@, samples@, timestamps@, range, pixel_columns as int),
{
    let lo: usize = lower_cut(timestamps, range.0);
    let hi: usize = upper_cut(timestamps, range.1);
    let mut buckets: Vec<Bucket> = Vec::new();
    let ghost drawn: Seq<Bucket> = viewport_buckets(
        samples@,
        timestamps@,
        lo as int,
        hi as int,
        pixel_columns as int,
    );
    if pixel_columns == 0 || hi <= lo {
        assert(buckets@ == drawn);
        return buckets;
    }
    let total: usize = hi - lo;
    if total <= pixel_columns {
        let mut i: usize = lo;
        while i < hi
            invariant
                samples@.len() == timestamps@.len(),
                lo <= i <= hi <= samples@.len(),
                total == hi - lo,
                0 < total <= pixel_columns,
                drawn == viewport_buckets(
                    samples@,
                    timestamps@,
                    lo as int,
                    hi as int,
                    pixel_columns as int,
                ),
                buckets@ == drawn.take(i - lo),
            decreases hi - i,
        {
            let sample: u64 = samples[i];
            let at: i128 = timestamps[i];
            let nan_count: u64 = if is_nan(sample) {
                1
            } else {
                0
            };
            let bucket: Bucket = Bucket {
                min: sample,
                max: sample,
                first_ts: at,
                last_ts: at,
                nan_count,
            };
            assert(bucket == drawn[i - lo]);
            assert(drawn.take(i - lo).push(bucket) == drawn.take(i + 1 - lo));
            buckets.push(bucket);
            i = i + 1;
        }
        assert(buckets@ == drawn);
        return buckets;
    }
    let mut column: usize = 0;
    let mut start: usize = lo;
    proof {
        assert(0 * (hi - lo) == 0) by (nonlinear_arith);
        assert(0int / (pixel_columns as int) == 0) by (nonlinear_arith)
            requires
                pixel_columns > 0,
        ;
    }
    while column < pixel_columns
        invariant
            samples@.len() == timestamps@.len(),
            samples@.len() * PYRAMID_FACTOR <= usize::MAX,
            pyramid@.len() == 0 || is_pyramid(pyramid@, samples@, timestamps@),
            lo < hi <= samples@.len(),
            total == hi - lo,
            0 < pixel_columns < total,
            column <= pixel_columns,
            start == column_start(lo as int, hi as int, pixel_columns as int, column as int),
            drawn == viewport_buckets(
                samples@,
                timestamps@,
                lo as int,
                hi as int,
                pixel_columns as int,
            ),
            buckets@ == drawn.take(column as int),
        decreases pixel_columns - column,
    {
        proof {
            lemma_column_bounds(lo as int, hi as int, pixel_columns as int, column as int);
            assert((column + 1) * total <= u128::MAX) by (nonlinear_arith)
                requires
                    0 <= column + 1 <= 0xffff_ffff_ffff_ffff,
                    0 <= total <= 0xffff_ffff_ffff_ffff,
            ;
        }
        let offset: u128 = (column as u128 + 1) * (total as u128) / (pixel_columns as u128);
        let end: usize = lo + offset as usize;
        let bucket: Bucket = aggregate_range(pyramid, samples, timestamps, start, end);
        assert(bucket == drawn[column as int]);
        assert(drawn.take(column as int).push(bucket) == drawn.take(column + 1));
        buckets.push(bucket);
        start = end;
        column = column + 1;
    }
    assert(buckets@ == drawn);
    buckets
}

/// There is only one pyramid over a series: however it was arrived at, by
/// [`build_pyramid`] in one go or by [`extend_pyramid`] over growing prefixes,
/// it has the same levels with the same buckets.
pub proof fn law_pyramid_is_unique(
    left: Seq<Vec<Bucket>>,
    right: Seq<Vec<Bucket>>,
    samples: Seq<u64>,
    timestamps: Seq<i128>,
)
    requires
        is_pyramid(left, samples, timestamps),
        is_pyramid(right, samples, timestamps),
    ensures
        left.len() == right.len(),
        forall|k: int| 0 <= k < left.len() ==> (#[trigger] left[k])@ == right[k]@,
{
    assert forall|k: int| 0 <= k < left.len() && k < right.len() implies (#[trigger] left[k])@
        == right[k]@ by {
        lemma_level_span_positive(k as nat);
        lemma_level_is_unique(
            left[k]@,
            right[k]@,
            samples,
            timestamps,
            level_span(k as nat) as int,
        );
    }
    if left.len() < right.len() {
        assert(left[left.len() - 1]@ == right[left.len() - 1]@);
    } else if right.len() < left.len() {
        assert(left[right.len() - 1]@ == right[right.len() - 1]@);
    }
}

proof fn lemma_level_is_unique(
    left: Seq<Bucket>,
    right: Seq<Bucket>,
    samples: Seq<u64>,
    timestamps: Seq<i128>,
    span: int,
)
    requires
        span > 0,
        is_level(left, samples, timestamps, span),
        is_level(right, samples, timestamps, span),
    ensures
        left == right,
{
    assert(left.len() == right.len()) by (nonlinear_arith)
        requires
            span > 0,
            samples.len() <= left.len() * span,
            (left.len() - 1) * span < samples.len(),
            samples.len() <= right.len() * span,
            (right.len() - 1) * span < samples.len(),
    ;
    assert(left =~= right);
}

/// The levels have as many buckets as those of a pyramid over `count` samples.
pub open spec fn has_shape(pyramid: Seq<Vec<Bucket>>, count: int) -> bool {
    &&& pyramid.len() == 0 <==> count == 0
    &&& forall|k: int|
        0 <= k < pyramid.len() ==> is_bucket_count(
            (#[trigger] pyramid[k])@.len() as int,
            count,
            level_span(k as nat) as int,
        )
    &&& forall|k: int|
        0 <= k < pyramid.len() - 1 ==> (#[trigger] pyramid[k])@.len() >= PYRAMID_FACTOR
    &&& pyramid.len() > 0 ==> pyramid[pyramid.len() - 1]@.len() < PYRAMID_FACTOR
}

/// So many runs of `span` cover `count` samples, and no fewer do.
pub open spec fn is_bucket_count(buckets: int, count: int, span: int) -> bool {
    count <= buckets * span && (buckets - 1) * span < count
}

/// Every pyramid has the shape of one.
pub proof fn law_pyramids_have_their_shape(
    pyramid: Seq<Vec<Bucket>>,
    samples: Seq<u64>,
    timestamps: Seq<i128>,
)
    requires
        is_pyramid(pyramid, samples, timestamps),
    ensures
        has_shape(pyramid, samples.len() as int),
{
    assert forall|k: int| 0 <= k < pyramid.len() implies is_bucket_count(
        (#[trigger] pyramid[k])@.len() as int,
        samples.len() as int,
        level_span(k as nat) as int,
    ) by {
        assert(is_level(pyramid[k]@, samples, timestamps, level_span(k as nat) as int));
    }
}

/// Whether levels from elsewhere have the shape of a pyramid over so many
/// samples. Their buckets are not looked at.
pub fn has_pyramid_shape(pyramid: &[Vec<Bucket>], count: usize) -> (has: bool)
    ensures
        has == has_shape(pyramid@, count as int),
{
    if count == 0 || pyramid.len() == 0 {
        return count == 0 && pyramid.len() == 0;
    }
    let samples: u128 = count as u128;
    let mut span: u128 = PYRAMID_FACTOR as u128;
    let mut k: usize = 0;
    while k < pyramid.len()
        invariant
            0 < samples == count,
            k <= pyramid@.len(),
            pyramid@.len() > 0,
            k < pyramid@.len() ==> span == level_span(k as nat),
            8 <= span <= 8 * samples,
            forall|j: int|
                0 <= j < k ==> is_bucket_count(
                    (#[trigger] pyramid@[j])@.len() as int,
                    count as int,
                    level_span(j as nat) as int,
                ),
            forall|j: int|
                0 <= j < k && j < pyramid@.len() - 1 ==> (#[trigger] pyramid@[j])@.len()
                    >= PYRAMID_FACTOR,
            k == pyramid@.len() ==> pyramid@[pyramid@.len() - 1]@.len() < PYRAMID_FACTOR,
        decreases pyramid@.len() - k,
    {
        let buckets: usize = pyramid[k].len();
        let wanted: u128 = (samples - 1) / span + 1;
        proof {
            lemma_bucket_count(buckets as int, count as int, span as int);
        }
        if buckets as u128 != wanted {
            assert(!is_bucket_count(
                pyramid@[k as int]@.len() as int,
                count as int,
                level_span(k as nat) as int,
            ));
            return false;
        }
        let last: bool = k == pyramid.len() - 1;
        if (buckets < PYRAMID_FACTOR) != last {
            assert(pyramid@[k as int]@.len() == buckets);
            return false;
        }
        if !last {
            assert(span < samples) by (nonlinear_arith)
                requires
                    (buckets - 1) * span < samples,
                    buckets >= 8,
                    span >= 8,
            ;
            assert(level_span((k + 1) as nat) == PYRAMID_FACTOR * level_span(k as nat));
            assert(samples <= usize::MAX <= u64::MAX);
            span = 8 * span;
        }
        k = k + 1;
    }
    true
}

proof fn lemma_bucket_count(buckets: int, count: int, span: int)
    requires
        0 <= buckets,
        0 < count,
        0 < span,
    ensures
        is_bucket_count(buckets, count, span) <==> buckets == (count - 1) / span + 1,
{
    let wanted = (count - 1) / span + 1;
    assert(count <= wanted * span && (wanted - 1) * span < count) by (nonlinear_arith)
        requires
            wanted == (count - 1) / span + 1,
            0 < count,
            0 < span,
    ;
    if is_bucket_count(buckets, count, span) {
        assert(buckets == wanted) by (nonlinear_arith)
            requires
                count <= wanted * span,
                (wanted - 1) * span < count,
                count <= buckets * span,
                (buckets - 1) * span < count,
                0 < span,
        ;
    }
}

/// Where the timestamps never step backwards there is one place to cut them.
proof fn lemma_cuts_are_unique(timestamps: Seq<i128>, tick: i128, a: int, b: int)
    requires
        is_non_decreasing(timestamps),
    ensures
        is_lower_cut(timestamps, tick, a) && is_lower_cut(timestamps, tick, b) ==> a == b,
        is_upper_cut(timestamps, tick, a) && is_upper_cut(timestamps, tick, b) ==> a == b,
{
    if 0 <= a < b <= timestamps.len() {
        assert(timestamps[a] <= timestamps[b - 1]);
    }
    if 0 <= b < a <= timestamps.len() {
        assert(timestamps[b] <= timestamps[a - 1]);
    }
}

/// A pyramid changes what a query costs and never what it gives: two queries of
/// the same range, one with the pyramid and one without, give the same buckets,
/// as long as the timestamps never step backwards.
pub proof fn law_pyramid_never_changes_the_answer(
    with_pyramid: Seq<Bucket>,
    without: Seq<Bucket>,
    samples: Seq<u64>,
    timestamps: Seq<i128>,
    range: (i128, i128),
    pixel_columns: int,
)
    requires
        is_non_decreasing(timestamps),
        is_viewport(with_pyramid, samples, timestamps, range, pixel_columns),
        is_viewport(without, samples, timestamps, range, pixel_columns),
    ensures
        with_pyramid == without,
{
    let (a, b) = choose|lo: int, hi: int|
        {
            &&& #[trigger] is_lower_cut(timestamps, range.0, lo)
            &&& #[trigger] is_upper_cut(timestamps, range.1, hi)
            &&& with_pyramid == viewport_buckets(samples, timestamps, lo, hi, pixel_columns)
        };
    let (c, d) = choose|lo: int, hi: int|
        {
            &&& #[trigger] is_lower_cut(timestamps, range.0, lo)
            &&& #[trigger] is_upper_cut(timestamps, range.1, hi)
            &&& without == viewport_buckets(samples, timestamps, lo, hi, pixel_columns)
        };
    lemma_cuts_are_unique(timestamps, range.0, a, c);
    lemma_cuts_are_unique(timestamps, range.1, b, d);
}

/// A bucket loses no extreme: every number of its run lies within the
/// envelope, both ends of the envelope are numbers of the run, and a run
/// without any number has the empty envelope and counts all its samples.
pub proof fn law_bucket_is_the_exact_envelope(
    samples: Seq<u64>,
    timestamps: Seq<i128>,
    lo: int,
    hi: int,
)
    requires
        0 <= lo < hi <= samples.len(),
        samples.len() <= usize::MAX,
    ensures
        ({
            let bucket = bucket_of(samples, timestamps, lo, hi);
            &&& forall|i: int|
                lo <= i < hi && !value::is_nan_spec(#[trigger] samples[i])
                    ==> value::order_key(bucket.min) <= value::order_key(samples[i])
                    <= value::order_key(bucket.max)
            &&& (exists|i: int| lo <= i < hi && !value::is_nan_spec(#[trigger] samples[i])) ==> {
                &&& exists|i: int|
                    lo <= i < hi && !value::is_nan_spec(samples[i]) && #[trigger] samples[i]
                        == bucket.min
                &&& exists|i: int|
                    lo <= i < hi && !value::is_nan_spec(samples[i]) && #[trigger] samples[i]
                        == bucket.max
            }
            &&& (forall|i: int| lo <= i < hi ==> value::is_nan_spec(#[trigger] samples[i])) ==> {
                &&& bucket.min == POSITIVE_INFINITY
                &&& bucket.max == NEGATIVE_INFINITY
                &&& bucket.nan_count == hi - lo
            }
        }),
{
    lemma_envelope(samples, lo, hi);
}

proof fn lemma_envelope(samples: Seq<u64>, lo: int, hi: int)
    requires
        0 <= lo <= hi <= samples.len(),
        samples.len() <= usize::MAX,
    ensures
        forall|i: int|
            lo <= i < hi && !value::is_nan_spec(#[trigger] samples[i]) ==> value::order_key(
                range_min(samples, lo, hi),
            ) <= value::order_key(samples[i]) <= value::order_key(range_max(samples, lo, hi)),
        range_min(samples, lo, hi) == POSITIVE_INFINITY || exists|i: int|
            lo <= i < hi && !value::is_nan_spec(samples[i]) && #[trigger] samples[i] == range_min(
                samples,
                lo,
                hi,
            ),
        range_max(samples, lo, hi) == NEGATIVE_INFINITY || exists|i: int|
            lo <= i < hi && !value::is_nan_spec(samples[i]) && #[trigger] samples[i] == range_max(
                samples,
                lo,
                hi,
            ),
        (exists|i: int| lo <= i < hi && !value::is_nan_spec(#[trigger] samples[i])) ==> {
            &&& exists|i: int|
                lo <= i < hi && !value::is_nan_spec(samples[i]) && #[trigger] samples[i]
                    == range_min(samples, lo, hi)
            &&& exists|i: int|
                lo <= i < hi && !value::is_nan_spec(samples[i]) && #[trigger] samples[i]
                    == range_max(samples, lo, hi)
        },
        (forall|i: int| lo <= i < hi ==> value::is_nan_spec(#[trigger] samples[i])) ==> {
            &&& range_min(samples, lo, hi) == POSITIVE_INFINITY
            &&& range_max(samples, lo, hi) == NEGATIVE_INFINITY
            &&& range_nan_count(samples, lo, hi) == hi - lo
        },
    decreases hi - lo,
{
    if lo < hi {
        lemma_envelope(samples, lo, hi - 1);
        lemma_range_not_nan(samples, lo, hi - 1);
        lemma_nan_count_bound(samples, lo, hi - 1);
        let last = samples[hi - 1];
        if !value::is_nan_spec(last) {
            let low = range_min(samples, lo, hi);
            let high = range_max(samples, lo, hi);
            if low != last {
                assert(low == range_min(samples, lo, hi - 1));
                if low == POSITIVE_INFINITY {
                    assert(value::order_key(last) == value::order_key(POSITIVE_INFINITY));
                }
            }
            if high != last {
                assert(high == range_max(samples, lo, hi - 1));
                if high == NEGATIVE_INFINITY {
                    assert(value::order_key(last) == value::order_key(NEGATIVE_INFINITY));
                }
            }
        }
    }
}

/// On timestamps that never step backwards, the samples a viewport resolves
/// are exactly those whose timestamps lie in its range.
pub proof fn law_viewport_holds_exactly_the_range(
    timestamps: Seq<i128>,
    range: (i128, i128),
    lo: int,
    hi: int,
)
    requires
        is_non_decreasing(timestamps),
        is_lower_cut(timestamps, range.0, lo),
        is_upper_cut(timestamps, range.1, hi),
    ensures
        forall|i: int|
            0 <= i < timestamps.len() ==> (lo <= i < hi <==> range.0 <= #[trigger] timestamps[i]
                <= range.1),
{
    assert forall|i: int| 0 <= i < timestamps.len() implies (lo <= i < hi <==> range.0
        <= #[trigger] timestamps[i] <= range.1) by {
        if lo > 0 {
            assert(timestamps[lo - 1] < range.0);
        }
        if hi > 0 {
            assert(timestamps[hi - 1] <= range.1);
        }
        if lo < timestamps.len() {
            assert(timestamps[lo] >= range.0);
        }
        if hi < timestamps.len() {
            assert(timestamps[hi] > range.1);
        }
    }
}

/// Every sample of a viewport falls into one of its pixel columns, whose
/// bucket is the envelope of a run that holds it: no zoom level hides a
/// sample, be it a single spike.
pub proof fn law_every_sample_is_in_a_column(
    samples: Seq<u64>,
    timestamps: Seq<i128>,
    lo: int,
    hi: int,
    columns: int,
    i: int,
) -> (column: int)
    requires
        0 <= lo <= i < hi <= samples.len(),
        samples.len() <= usize::MAX,
        0 < columns < hi - lo,
    ensures
        0 <= column < columns,
        column_start(lo, hi, columns, column) <= i < column_start(lo, hi, columns, column + 1),
        viewport_buckets(samples, timestamps, lo, hi, columns)[column] == bucket_of(
            samples,
            timestamps,
            column_start(lo, hi, columns, column),
            column_start(lo, hi, columns, column + 1),
        ),
        !value::is_nan_spec(samples[i]) ==> value::order_key(
            viewport_buckets(samples, timestamps, lo, hi, columns)[column].min,
        ) <= value::order_key(samples[i]) <= value::order_key(
            viewport_buckets(samples, timestamps, lo, hi, columns)[column].max,
        ),
{
    assert(column_start(lo, hi, columns, 0) == lo) by {
        assert(0 * (hi - lo) == 0) by (nonlinear_arith);
        assert(0int / columns == 0) by (nonlinear_arith)
            requires
                columns > 0,
        ;
    }
    assert(column_start(lo, hi, columns, columns) == hi) by {
        assert((columns * (hi - lo)) / columns == hi - lo) by (nonlinear_arith)
            requires
                columns > 0,
        ;
    }
    let column = lemma_column_search(lo, hi, columns, i, columns);
    lemma_column_bounds(lo, hi, columns, column);
    law_bucket_is_the_exact_envelope(
        samples,
        timestamps,
        column_start(lo, hi, columns, column),
        column_start(lo, hi, columns, column + 1),
    );
    column
}

proof fn lemma_column_search(lo: int, hi: int, columns: int, i: int, bound: int) -> (column: int)
    requires
        0 < columns,
        0 <= bound <= columns,
        column_start(lo, hi, columns, 0) <= i < column_start(lo, hi, columns, bound),
    ensures
        0 <= column < bound,
        column_start(lo, hi, columns, column) <= i < column_start(lo, hi, columns, column + 1),
    decreases bound,
{
    if column_start(lo, hi, columns, bound - 1) <= i {
        bound - 1
    } else {
        lemma_column_search(lo, hi, columns, i, bound - 1)
    }
}

} // verus!
