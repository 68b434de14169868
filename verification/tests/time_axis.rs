//! Differences between ticks, gaps, and how regularly an axis was sampled.

use glyde::time::gap::{delta_from_key, delta_key, is_uniform, median_delta, Median};
use glyde::time::ticks::{delta_count, DeltaCursor};
use glyde::time::{
    classify_sampling, detect_gaps, detect_monotonicity, parse_timestamp, summarize_ticks, Gap,
    MonotonicityReport, SamplingClass, TickSource, TimestampFormat,
};
use glyde::Result;

/// Ticks that are handed out a few at a time.
struct ChunkedTicks {
    ticks: Vec<i128>,
    chunk_len: usize,
}

impl TickSource for ChunkedTicks {
    fn tick_count(&self) -> usize {
        self.ticks.len()
    }

    fn tick_chunk(&self, start: usize) -> Result<Vec<i128>> {
        let end = (start + self.chunk_len).min(self.ticks.len());
        Ok(self.ticks[start..end].to_vec())
    }
}

fn deltas_of<S: TickSource + ?Sized>(source: &S, start: usize, end: usize) -> Vec<i128> {
    let mut deltas = Vec::new();
    let mut cursor =
        DeltaCursor::new(source, start, end).expect("an in-memory tick source never fails");
    while let Some(delta) = cursor
        .next_delta()
        .expect("an in-memory tick source never fails")
    {
        deltas.push(delta);
    }
    deltas
}

fn iso_ticks(times: &[&str]) -> Vec<i128> {
    times
        .iter()
        .map(|time| {
            parse_timestamp(time, TimestampFormat::Iso8601WithOffset)
                .expect("must parse")
                .ticks
        })
        .collect()
}

#[test]
fn deltas_are_the_same_however_finely_the_ticks_are_chunked() {
    let ticks: Vec<i128> = vec![0, 10, 30, 25, 25, 1_000, 1_001];
    let expected = vec![10, 20, -5, 0, 975, 1];

    assert_eq!(deltas_of(ticks.as_slice(), 0, ticks.len()), expected);
    for chunk_len in 1..=ticks.len() + 1 {
        let chunked = ChunkedTicks {
            ticks: ticks.clone(),
            chunk_len,
        };
        assert_eq!(
            deltas_of(&chunked, 0, ticks.len()),
            expected,
            "chunking {chunk_len} ticks at a time must not change the differences"
        );
    }
}

#[test]
fn a_sub_range_yields_only_that_ranges_own_deltas() {
    let ticks: Vec<i128> = vec![0, 1, 2, 100, 101, 102];

    assert_eq!(deltas_of(ticks.as_slice(), 3, 6), vec![1, 1]);
    assert_eq!(delta_count(3, 6, ticks.len()), 2);
}

#[test]
fn ranges_with_fewer_than_two_ticks_have_no_deltas() {
    let ticks: Vec<i128> = vec![7, 8, 9];

    assert!(deltas_of(ticks.as_slice(), 1, 2).is_empty());
    assert!(deltas_of(ticks.as_slice(), 2, 2).is_empty());
    assert!(deltas_of(&[] as &[i128], 0, 0).is_empty());
    assert_eq!(delta_count(1, 2, ticks.len()), 0);
    assert_eq!(delta_count(0, 0, ticks.len()), 0);
}

#[test]
fn ticks_a_range_past_the_end_is_clamped_rather_than_panicking() {
    let ticks: Vec<i128> = vec![0, 5, 9];

    assert_eq!(deltas_of(ticks.as_slice(), 0, 99), vec![5, 4]);
    assert_eq!(delta_count(0, 99, ticks.len()), 2);
    assert!(deltas_of(ticks.as_slice(), 99, 200).is_empty());
}

#[test]
fn fewer_than_two_samples_has_nothing_to_compare() {
    assert_eq!(detect_monotonicity(&[]), MonotonicityReport::default());
    assert_eq!(detect_monotonicity(&[42]), MonotonicityReport::default());
}

#[test]
fn strictly_increasing_timestamps_report_no_anomalies() {
    assert_eq!(
        detect_monotonicity(&[0, 1, 2, 3]),
        MonotonicityReport::default()
    );
}

#[test]
fn corpus_case_36_non_monotonic_timestamps_reports_one_backward_step() {
    let ticks = iso_ticks(&[
        "2026-01-01T00:00:00Z",
        "2026-01-01T00:00:01Z",
        "2026-01-01T00:00:02Z",
        "2026-01-01T00:00:01Z",
        "2026-01-01T00:00:03Z",
        "2026-01-01T00:00:04Z",
    ]);

    assert_eq!(
        detect_monotonicity(&ticks),
        MonotonicityReport {
            non_monotonic_count: 1,
            duplicate_count: 0,
        }
    );
}

#[test]
fn corpus_case_37_duplicate_timestamps_reports_one_duplicate() {
    let ticks = iso_ticks(&[
        "2026-01-01T00:00:00Z",
        "2026-01-01T00:00:01Z",
        "2026-01-01T00:00:02Z",
        "2026-01-01T00:00:02Z",
        "2026-01-01T00:00:03Z",
        "2026-01-01T00:00:04Z",
    ]);

    assert_eq!(
        detect_monotonicity(&ticks),
        MonotonicityReport {
            non_monotonic_count: 0,
            duplicate_count: 1,
        }
    );
}

#[test]
fn corpus_case_38_timestamps_with_jitter_classify_as_uniform() {
    let ticks = iso_ticks(&[
        "2026-01-01T00:00:00.000Z",
        "2026-01-01T00:00:01.003Z",
        "2026-01-01T00:00:01.998Z",
        "2026-01-01T00:00:03.002Z",
        "2026-01-01T00:00:03.999Z",
        "2026-01-01T00:00:05.001Z",
    ]);

    assert_eq!(detect_gaps(&ticks), Vec::new());
    assert_eq!(classify_sampling(&ticks), SamplingClass::Uniform);
}

#[test]
fn corpus_case_39_irregular_event_log_classifies_as_irregular_with_one_gap() {
    let ticks = iso_ticks(&[
        "2026-01-01T00:00:00Z",
        "2026-01-01T00:00:02Z",
        "2026-01-01T00:00:03Z",
        "2026-01-01T00:00:15Z",
        "2026-01-01T00:00:16Z",
        "2026-01-01T00:00:40Z",
    ]);

    assert_eq!(detect_gaps(&ticks).len(), 1);
    assert_eq!(classify_sampling(&ticks), SamplingClass::Irregular);
}

#[test]
fn corpus_case_40_segmented_three_bursts_classifies_as_segmented_uniform_with_two_gaps() {
    let ticks = iso_ticks(&[
        "2026-01-01T00:00:00Z",
        "2026-01-01T00:00:01Z",
        "2026-01-01T00:00:02Z",
        "2026-01-03T00:00:00Z",
        "2026-01-03T00:00:01Z",
        "2026-01-03T00:00:02Z",
        "2026-01-05T00:00:00Z",
        "2026-01-05T00:00:01Z",
        "2026-01-05T00:00:02Z",
    ]);

    let gaps = detect_gaps(&ticks);
    assert_eq!(gaps.len(), 2);
    assert_eq!(
        gaps[0],
        Gap {
            before_index: 2,
            after_index: 3,
            delta: (2 * 86_400 - 2) * 1_000_000_000,
        }
    );
    assert_eq!(classify_sampling(&ticks), SamplingClass::SegmentedUniform);
}

#[test]
fn fewer_than_two_samples_is_vacuously_uniform_with_no_gaps() {
    assert_eq!(detect_gaps(&[]), Vec::new());
    assert_eq!(classify_sampling(&[]), SamplingClass::Uniform);
    assert_eq!(detect_gaps(&[42]), Vec::new());
    assert_eq!(classify_sampling(&[42]), SamplingClass::Uniform);
}

#[test]
fn duplicate_timestamps_with_a_zero_median_delta_are_uniform_only_if_every_delta_is_zero() {
    let uniform: &[i128] = &[0, 0, 0, 0];
    let not_uniform: &[i128] = &[0, 0, 0, 5];

    assert!(is_uniform(uniform, 0, uniform.len()).expect("a slice never fails"));
    assert!(!is_uniform(not_uniform, 0, not_uniform.len()).expect("a slice never fails"));
}

fn bounded_median(ticks: &[i128]) -> Option<f64> {
    median_delta(ticks, 0, ticks.len())
        .expect("a slice never fails")
        .map(|median: Median| median.floor as f64 + if median.half { 0.5 } else { 0.0 })
}

fn sorted_median(ticks: &[i128]) -> Option<f64> {
    if ticks.len() < 2 {
        return None;
    }
    let mut deltas: Vec<i128> = ticks.windows(2).map(|pair| pair[1] - pair[0]).collect();
    deltas.sort_unstable();
    let n = deltas.len();
    Some(if n % 2 == 1 {
        deltas[n / 2] as f64
    } else {
        (deltas[n / 2 - 1] + deltas[n / 2]) as f64 / 2.0
    })
}

#[test]
fn the_bounded_median_matches_a_full_sort_on_hand_checked_distributions() {
    assert_eq!(bounded_median(&[0, 1, 4, 9]), Some(3.0));
    assert_eq!(bounded_median(&[0, 1, 3, 6, 16]), Some(2.5));
    assert_eq!(bounded_median(&[0, -10, -15, -10]), Some(-5.0));
    assert_eq!(bounded_median(&[7, 19]), Some(12.0));
    assert_eq!(
        bounded_median(&[0, 1, 1 + i128::from(u32::MAX), 2 + i128::from(u64::MAX)]),
        Some(f64::from(u32::MAX))
    );
}

/// A fixed sequence of numbers that look random.
fn scattered(seed: u64, count: usize, spread: i128) -> Vec<i128> {
    let mut state = seed;
    (0..count)
        .map(|_| {
            state = state
                .wrapping_mul(6_364_136_223_846_793_005)
                .wrapping_add(1_442_695_040_888_963_407);
            i128::from(state >> 11) % (2 * spread) - spread
        })
        .collect()
}

#[test]
fn the_bounded_median_equals_the_sorted_median_for_scattered_series() {
    for seed in 0..40 {
        let ticks = scattered(seed, (seed as usize * 7) % 60, 1_000_000_000_000);
        assert_eq!(bounded_median(&ticks), sorted_median(&ticks), "seed {seed}");
    }
}

#[test]
fn chunked_and_whole_slice_sources_agree_on_every_statistic_of_scattered_series() {
    for seed in 0..24 {
        let ticks = scattered(seed, (seed as usize * 5) % 40, 1_000);
        let whole = summarize_ticks(ticks.as_slice()).expect("a slice never fails");
        for chunk_len in 1..7 {
            let chunked = ChunkedTicks {
                ticks: ticks.clone(),
                chunk_len,
            };
            assert_eq!(
                summarize_ticks(&chunked).expect("never fails"),
                whole,
                "seed {seed}, {chunk_len} at a time"
            );
        }
        assert_eq!(whole.gap_count, detect_gaps(&ticks).len());
        assert_eq!(whole.sampling_class, classify_sampling(&ticks));
        assert_eq!(whole.monotonicity, detect_monotonicity(&ticks));
    }
}

#[test]
fn keys_keep_the_order_of_differences_and_give_them_back() {
    let deltas = [i128::MIN, -1_000, -1, 0, 1, 1_000, i128::MAX];
    for pair in deltas.windows(2) {
        assert!(delta_key(pair[0]) < delta_key(pair[1]));
    }
    for delta in deltas {
        assert_eq!(delta_from_key(delta_key(delta)), delta);
    }
}
