//! What gaps, sampling classes and steps are, said of the ticks themselves.

use vstd::prelude::*;
use crate::time::gap;
use crate::time::gap::{Gap, SamplingClass};
use crate::time::monotonic;
use crate::time::rank;
use crate::time::ticks;

verus! {

/// The differences between consecutive ticks.
pub open spec fn differences(ticks: Seq<i128>) -> Seq<int> {
    Seq::new(
        if ticks.len() > 0 {
            (ticks.len() - 1) as nat
        } else {
            0
        },
        |i: int| ticks[i + 1] - ticks[i],
    )
}

/// `sorted` holds the same numbers as `numbers`, in ascending order.
pub open spec fn is_sorted_form(sorted: Seq<int>, numbers: Seq<int>) -> bool {
    &&& sorted.to_multiset() == numbers.to_multiset()
    &&& forall|i: int, j: int| 0 <= i < j < sorted.len() ==> sorted[i] <= sorted[j]
}

/// Of a series in ascending order, the sum of the middle entry and itself, or of
/// the two middle entries.
pub open spec fn middle_sum(sorted: Seq<int>) -> int {
    let n = sorted.len() as int;
    if n % 2 == 1 {
        2 * sorted[n / 2]
    } else {
        sorted[n / 2 - 1] + sorted[n / 2]
    }
}

/// The distance of a number from zero.
pub open spec fn size(n: int) -> int {
    if n < 0 {
        -n
    } else {
        n
    }
}

proof fn lemma_sorted_form_is_the_sort(sorted: Seq<int>, numbers: Seq<int>)
    requires
        is_sorted_form(sorted, numbers),
    ensures
        sorted == numbers.sort(),
        sorted.len() == numbers.len(),
{
    let leq = |x: int, y: int| x <= y;
    numbers.lemma_sort_ensures();
    assert(vstd::relations::sorted_by(sorted, leq)) by {
        assert forall|i: int, j: int| 0 <= i < j < sorted.len() implies #[trigger] leq(
            sorted[i],
            sorted[j],
        ) by {
            assert(sorted[i] <= sorted[j]);
        }
    }
    vstd::seq_lib::lemma_sorted_unique(sorted, numbers.sort(), leq);
    sorted.to_multiset_ensures();
    numbers.to_multiset_ensures();
}

proof fn lemma_median(sorted: Seq<int>, numbers: Seq<int>)
    requires
        is_sorted_form(sorted, numbers),
        numbers.len() > 0,
    ensures
        rank::doubled_median(numbers) == middle_sum(sorted),
        sorted.len() == numbers.len(),
{
    lemma_sorted_form_is_the_sort(sorted, numbers);
}

/// Whether a difference is listed as a gap.
proof fn lemma_listed(ticks: Seq<i128>, n: int, i: int)
    requires
        0 <= n < ticks.len(),
        ticks.len() <= usize::MAX,
        ticks::deltas_fit(ticks),
    ensures
        ({
            let gaps = gap::gaps_before(ticks, n);
            let deltas = ticks::deltas(ticks);
            &&& forall|k: int|
                0 <= k < gaps.len() ==> {
                    &&& 0 <= (#[trigger] gaps[k]).before_index < n
                    &&& gaps[k].after_index == gaps[k].before_index + 1
                    &&& gaps[k].delta == ticks[gaps[k].after_index as int]
                        - ticks[gaps[k].before_index as int]
                    &&& gap::is_gap_spec(deltas[gaps[k].before_index as int], deltas)
                }
            &&& forall|a: int, b: int|
                0 <= a < b < gaps.len() ==> (#[trigger] gaps[a]).before_index < (
                #[trigger] gaps[b]).before_index
            &&& 0 <= i < n && gap::is_gap_spec(deltas[i], deltas) ==> exists|k: int|
                0 <= k < gaps.len() && (#[trigger] gaps[k]).before_index == i
        }),
    decreases n,
{
    if n > 0 {
        lemma_listed(ticks, n - 1, i);
        let deltas = ticks::deltas(ticks);
        let before = gap::gaps_before(ticks, n - 1);
        let gaps = gap::gaps_before(ticks, n);
        assert(i128::MIN <= ticks[(n - 1) + 1] - ticks[n - 1] <= i128::MAX);
        if 0 <= i < n - 1 && gap::is_gap_spec(deltas[i], deltas) {
            let k = choose|k: int| 0 <= k < before.len() && (#[trigger] before[k]).before_index == i;
            assert(gaps[k].before_index == i);
        }
        if gap::is_gap_spec(deltas[n - 1], deltas) {
            assert(gaps[gaps.len() - 1].before_index == n - 1);
        }
    }
}

/// A gap is a difference of more than ten times the median difference: the
/// list holds those differences, all of them and no others, in their order. The
/// median is that of `sorted`, the differences in ascending order.
pub proof fn law_gaps_exceed_ten_medians(ticks: Seq<i128>, sorted: Seq<int>)
    requires
        2 <= ticks.len() <= usize::MAX,
        ticks::deltas_fit(ticks),
        is_sorted_form(sorted, differences(ticks)),
    ensures
        forall|i: int|
            #![trigger ticks[i + 1]]
            0 <= i < ticks.len() - 1 ==> (2 * (ticks[i + 1] - ticks[i]) > 10 * middle_sum(sorted)
                <==> gap::gaps_of(ticks).contains(
                Gap {
                    before_index: i as usize,
                    after_index: (i + 1) as usize,
                    delta: (ticks[i + 1] - ticks[i]) as i128,
                },
            )),
        forall|k: int|
            0 <= k < gap::gaps_of(ticks).len() ==> {
                let found = #[trigger] gap::gaps_of(ticks)[k];
                &&& found.before_index + 1 == found.after_index < ticks.len()
                &&& found.delta == ticks[found.after_index as int]
                    - ticks[found.before_index as int]
            },
        forall|a: int, b: int|
            0 <= a < b < gap::gaps_of(ticks).len() ==> (
            #[trigger] gap::gaps_of(ticks)[a]).before_index < (
            #[trigger] gap::gaps_of(ticks)[b]).before_index,
{
    let deltas = ticks::deltas(ticks);
    let gaps = gap::gaps_of(ticks);
    assert(deltas =~= differences(ticks));
    lemma_median(sorted, deltas);
    lemma_listed(ticks, ticks.len() - 1, 0);
    assert forall|i: int|
        #![trigger ticks[i + 1]]
        0 <= i < ticks.len() - 1 implies (2 * (ticks[i + 1] - ticks[i]) > 10 * middle_sum(sorted)
        <==> gaps.contains(
        Gap {
            before_index: i as usize,
            after_index: (i + 1) as usize,
            delta: (ticks[i + 1] - ticks[i]) as i128,
        },
    )) by {
        lemma_listed(ticks, ticks.len() - 1, i);
        assert(i128::MIN <= ticks[i + 1] - ticks[i] <= i128::MAX);
        let wanted = Gap {
            before_index: i as usize,
            after_index: (i + 1) as usize,
            delta: (ticks[i + 1] - ticks[i]) as i128,
        };
        if gap::is_gap_spec(deltas[i], deltas) {
            let k = choose|k: int| 0 <= k < gaps.len() && (#[trigger] gaps[k]).before_index == i;
            assert(gaps[k] == wanted);
        }
        if gaps.contains(wanted) {
            let k = choose|k: int| 0 <= k < gaps.len() && gaps[k] == wanted;
            assert(gaps[k].before_index == i);
        }
    }
}

/// Ticks are uniform where their differences scatter by at most one percent:
/// where a hundred times the median of the distances from the median difference
/// is no more than that difference. `sorted` holds the differences in ascending
/// order, and `scatter` twice their distances from the median. Around a median
/// of zero, nothing may scatter at all.
pub proof fn law_uniform_ticks_scatter_by_one_percent(
    ticks: Seq<i128>,
    sorted: Seq<int>,
    scatter: Seq<int>,
)
    requires
        2 <= ticks.len(),
        is_sorted_form(sorted, differences(ticks)),
        is_sorted_form(
            scatter,
            Seq::new(
                (ticks.len() - 1) as nat,
                |i: int| size(2 * (ticks[i + 1] - ticks[i]) - middle_sum(sorted)),
            ),
        ),
    ensures
        middle_sum(sorted) != 0 ==> (gap::is_uniform_spec(ticks) <==> 100 * middle_sum(scatter)
            <= 2 * size(middle_sum(sorted))),
        middle_sum(sorted) == 0 ==> (gap::is_uniform_spec(ticks) <==> forall|i: int|
            0 <= i < ticks.len() ==> #[trigger] ticks[i] == ticks[0]),
{
    let deltas = ticks::deltas(ticks);
    assert(deltas =~= differences(ticks));
    lemma_median(sorted, deltas);
    let distances = Seq::new(
        (ticks.len() - 1) as nat,
        |i: int| size(2 * (ticks[i + 1] - ticks[i]) - middle_sum(sorted)),
    );
    assert(gap::doubled_deviations(deltas) =~= distances);
    lemma_median(scatter, distances);
    if forall|i: int| 0 <= i < deltas.len() ==> #[trigger] deltas[i] == 0 {
        assert forall|i: int| 0 <= i < ticks.len() implies #[trigger] ticks[i] == ticks[0] by {
            lemma_constant(ticks, i);
        }
    }
    if forall|i: int| 0 <= i < ticks.len() ==> #[trigger] ticks[i] == ticks[0] {
        assert forall|i: int| 0 <= i < deltas.len() implies #[trigger] deltas[i] == 0 by {
            assert(ticks[i + 1] == ticks[0]);
            assert(ticks[i] == ticks[0]);
        }
    }
}

proof fn lemma_constant(ticks: Seq<i128>, i: int)
    requires
        0 <= i < ticks.len(),
        forall|j: int| 0 <= j < ticks::deltas(ticks).len() ==> #[trigger] ticks::deltas(ticks)[j] == 0,
    ensures
        ticks[i] == ticks[0],
    decreases i,
{
    if i > 0 {
        lemma_constant(ticks, i - 1);
        assert(ticks::deltas(ticks)[i - 1] == 0);
    }
}

/// A step from one sample to the next that is listed as a gap.
pub open spec fn steps_over_gap(gaps: Seq<Gap>, i: int) -> bool {
    exists|k: int| 0 <= k < gaps.len() && (#[trigger] gaps[k]).before_index == i
}

/// The samples `start..end` are a longest run without a gap between two of them.
pub open spec fn is_longest_run(ticks: Seq<i128>, gaps: Seq<Gap>, start: int, end: int) -> bool {
    &&& 0 <= start < end <= ticks.len()
    &&& start > 0 ==> steps_over_gap(gaps, start - 1)
    &&& end < ticks.len() ==> steps_over_gap(gaps, end - 1)
    &&& forall|i: int| start <= i < end - 1 ==> !#[trigger] steps_over_gap(gaps, i)
}

proof fn lemma_segments_are_longest_runs(ticks: Seq<i128>, start: int, end: int)
    requires
        ticks.len() <= usize::MAX,
        ticks::deltas_fit(ticks),
        ticks.len() >= 1,
    ensures
        gap::is_segment(ticks, start, end) <==> is_longest_run(
            ticks,
            gap::gaps_of(ticks),
            start,
            end,
        ),
{
    let deltas = ticks::deltas(ticks);
    let gaps = gap::gaps_of(ticks);
    assert forall|i: int| 0 <= i < ticks.len() - 1 implies (#[trigger] steps_over_gap(gaps, i)
        <==> gap::is_gap_spec(deltas[i], deltas)) by {
        lemma_listed(ticks, ticks.len() - 1, i);
    }
    if 0 < start < ticks.len() {
        assert(steps_over_gap(gaps, start - 1) <==> gap::is_gap_spec(deltas[start - 1], deltas));
    }
    if 0 < end < ticks.len() {
        assert(steps_over_gap(gaps, end - 1) <==> gap::is_gap_spec(deltas[end - 1], deltas));
    }
    if 0 <= start < end <= ticks.len() {
        if is_longest_run(ticks, gaps, start, end) {
            assert forall|i: int| start <= i < end - 1 implies !gap::is_gap_spec(
                #[trigger] deltas[i],
                deltas,
            ) by {
                assert(!steps_over_gap(gaps, i));
            }
        }
        if gap::is_segment(ticks, start, end) {
            assert forall|i: int| start <= i < end - 1 implies !#[trigger] steps_over_gap(
                gaps,
                i,
            ) by {
                assert(!gap::is_gap_spec(deltas[i], deltas));
            }
        }
    }
}

/// An axis is uniform where it has no gaps and is uniform as a whole, segmented
/// where it has gaps and every longest run of samples without one is uniform,
/// from the first sample to the last one; else it is irregular. Fewer than two
/// samples are uniform.
pub proof fn law_class_is_that_of_every_run(ticks: Seq<i128>)
    requires
        ticks.len() <= usize::MAX,
        ticks::deltas_fit(ticks),
    ensures
        ({
            let gaps = gap::gaps_of(ticks);
            let class = gap::sampling_class_of(ticks);
            &&& class == SamplingClass::Uniform <==> (ticks.len() < 2 || (gaps.len() == 0
                && gap::is_uniform_spec(ticks)))
            &&& class == SamplingClass::SegmentedUniform <==> (ticks.len() >= 2 && gaps.len() > 0
                && forall|start: int, end: int| #[trigger]
                is_longest_run(ticks, gaps, start, end) ==> gap::is_uniform_spec(
                    ticks.subrange(start, end),
                ))
        }),
{
    let gaps = gap::gaps_of(ticks);
    if ticks.len() >= 2 {
        assert forall|start: int, end: int| #[trigger]
            gap::is_segment(ticks, start, end) <==> is_longest_run(ticks, gaps, start, end) by {
            lemma_segments_are_longest_runs(ticks, start, end);
        }
        assert forall|start: int, end: int| #[trigger]
            is_longest_run(ticks, gaps, start, end) implies gap::is_segment(ticks, start, end) by {
            lemma_segments_are_longest_runs(ticks, start, end);
        }
    }
}

/// The samples behind the last gap count as much as any others: where they are
/// not uniform, the axis is irregular.
pub proof fn law_last_run_counts(ticks: Seq<i128>, start: int)
    requires
        2 <= ticks.len() <= usize::MAX,
        ticks::deltas_fit(ticks),
        is_longest_run(ticks, gap::gaps_of(ticks), start, ticks.len() as int),
        !gap::is_uniform_spec(ticks.subrange(start, ticks.len() as int)),
    ensures
        gap::sampling_class_of(ticks) == SamplingClass::Irregular,
{
    law_class_is_that_of_every_run(ticks);
    let gaps = gap::gaps_of(ticks);
    if gaps.len() == 0 {
        if start > 0 {
            assert(steps_over_gap(gaps, start - 1));
        }
        assert(ticks.subrange(0, ticks.len() as int) =~= ticks);
    }
}

/// The places where a tick is smaller than the one before it.
pub open spec fn backward_places(ticks: Seq<i128>, n: int) -> Set<int> {
    vstd::set_lib::set_int_range(1, n).filter(|i: int| ticks[i] < ticks[i - 1])
}

/// The places where a tick repeats the one before it.
pub open spec fn repeat_places(ticks: Seq<i128>, n: int) -> Set<int> {
    vstd::set_lib::set_int_range(1, n).filter(|i: int| ticks[i] == ticks[i - 1])
}

proof fn lemma_step_counts(ticks: Seq<i128>, n: int)
    requires
        1 <= n <= ticks.len(),
    ensures
        backward_places(ticks, n).finite(),
        repeat_places(ticks, n).finite(),
        backward_places(ticks, n).len() == monotonic::backward_steps(ticks::deltas(ticks), n - 1),
        repeat_places(ticks, n).len() == monotonic::repeats(ticks::deltas(ticks), n - 1),
    decreases n,
{
    let deltas = ticks::deltas(ticks);
    if n == 1 {
        assert(backward_places(ticks, n) =~= Set::empty());
        assert(repeat_places(ticks, n) =~= Set::empty());
    } else {
        lemma_step_counts(ticks, n - 1);
        assert(deltas[n - 2] == ticks[n - 1] - ticks[n - 2]);
        if ticks[n - 1] < ticks[n - 2] {
            assert(backward_places(ticks, n) =~= backward_places(ticks, n - 1).insert(n - 1));
        } else {
            assert(backward_places(ticks, n) =~= backward_places(ticks, n - 1));
        }
        if ticks[n - 1] == ticks[n - 2] {
            assert(repeat_places(ticks, n) =~= repeat_places(ticks, n - 1).insert(n - 1));
        } else {
            assert(repeat_places(ticks, n) =~= repeat_places(ticks, n - 1));
        }
    }
}

/// As many samples are counted as running backwards as are smaller than the one
/// before them, and as many as repeats as equal it.
pub proof fn law_steps_are_counted_one_by_one(ticks: Seq<i128>)
    requires
        1 <= ticks.len() <= usize::MAX,
    ensures
        ({
            let report = monotonic::monotonicity_of(ticks::deltas(ticks));
            let n = ticks.len() as int;
            &&& report.non_monotonic_count == backward_places(ticks, n).len()
            &&& report.duplicate_count == repeat_places(ticks, n).len()
        }),
{
    lemma_step_counts(ticks, ticks.len() as int);
    monotonic::lemma_counts_bound(ticks::deltas(ticks), ticks.len() - 1);
}

} // verus!
