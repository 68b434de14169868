//! Pyramids, viewports and segment lengths.

use glyde::dsp::decimation::{
    build_pyramid, decimate_viewport, extend_pyramid, has_pyramid_shape, Bucket, PYRAMID_FACTOR,
};
use glyde::dsp::welch::{default_segment_length, MAX_SEGMENT_LEN, MIN_SEGMENT_LEN};

fn bits(values: &[f64]) -> Vec<u64> {
    values.iter().map(|v| v.to_bits()).collect()
}

fn wave(count: usize) -> (Vec<u64>, Vec<i128>) {
    (
        (0..count)
            .map(|i| {
                if i % 97 == 5 {
                    f64::NAN
                } else {
                    (i as f64 * 0.1).sin()
                }
                .to_bits()
            })
            .collect(),
        (0..count as i128).map(|i| i * 10).collect(),
    )
}

#[test]
fn a_pyramid_has_levels_down_to_fewer_than_its_factor() {
    let (samples, ticks) = wave(1_000);
    let pyramid = build_pyramid(&samples, &ticks);
    let lengths: Vec<usize> = pyramid.iter().map(Vec::len).collect();
    assert_eq!(lengths, vec![125, 16, 2]);
    assert_eq!(PYRAMID_FACTOR, 8);
    assert!(build_pyramid(&[], &[]).is_empty());
}

#[test]
fn a_bucket_holds_the_envelope_of_its_run() {
    let samples = bits(&[3.0, f64::NAN, -1.0, f64::INFINITY, 2.0]);
    let pyramid = build_pyramid(&samples, &[10, 20, 30, 40, 50]);
    assert_eq!(
        pyramid,
        vec![vec![Bucket {
            min: (-1.0f64).to_bits(),
            max: f64::INFINITY.to_bits(),
            first_ts: 10,
            last_ts: 50,
            nan_count: 1,
        }]]
    );
}

#[test]
fn a_run_of_nans_has_the_empty_envelope() {
    let samples = bits(&[f64::NAN, f64::NAN]);
    let pyramid = build_pyramid(&samples, &[1, 2]);
    assert_eq!(pyramid[0][0].min, f64::INFINITY.to_bits());
    assert_eq!(pyramid[0][0].max, f64::NEG_INFINITY.to_bits());
    assert_eq!(pyramid[0][0].nan_count, 2);
}

#[test]
fn growing_a_pyramid_gives_the_one_that_is_built_at_once() {
    let (samples, ticks) = wave(2_000);
    let mut pyramid = Vec::new();
    let mut read = 0;
    for upto in [1, 7, 8, 9, 64, 511, 512, 513, 1_999, 2_000] {
        pyramid = extend_pyramid(pyramid, read, &samples[..upto], &ticks[..upto]);
        read = upto;
        assert_eq!(pyramid, build_pyramid(&samples[..upto], &ticks[..upto]));
        assert!(has_pyramid_shape(&pyramid, upto));
    }
}

#[test]
fn levels_of_another_shape_are_told_apart() {
    for count in [0, 1, 7, 8, 9, 63, 64, 65, 100, 511, 512, 513, 5_000] {
        let (samples, ticks) = wave(count);
        let pyramid = build_pyramid(&samples, &ticks);
        assert!(has_pyramid_shape(&pyramid, count), "{count}");
        assert!(!has_pyramid_shape(&pyramid, count + 8), "{count}");
    }
    let (samples, ticks) = wave(100);
    let pyramid = build_pyramid(&samples, &ticks);
    assert!(!has_pyramid_shape(&pyramid[..1], 100));
    assert!(!has_pyramid_shape(&[], 100));
    assert!(!has_pyramid_shape(&pyramid, 0));
    assert!(has_pyramid_shape(&[], 0));
}

#[test]
fn a_spike_of_one_sample_stays_visible_at_every_zoom() {
    let mut samples = vec![0.0f64.to_bits(); 10_000];
    samples[4_321] = 7.5f64.to_bits();
    let ticks: Vec<i128> = (0..10_000).collect();
    let pyramid = build_pyramid(&samples, &ticks);
    for columns in [1, 2, 3, 10, 333, 1_000, 9_999, 10_000, 20_000] {
        let buckets = decimate_viewport(&pyramid, &samples, &ticks, (0, 9_999), columns);
        assert_eq!(buckets.len(), columns.min(10_000));
        let spikes = buckets
            .iter()
            .filter(|b| b.max == 7.5f64.to_bits())
            .count();
        assert_eq!(spikes, 1, "{columns} columns");
    }
}

#[test]
fn zoomed_in_there_is_one_bucket_for_each_sample() {
    let samples = bits(&[1.0, f64::NAN, 3.0]);
    let buckets = decimate_viewport(&[], &samples, &[10, 20, 30], (15, 30), 5);
    assert_eq!(buckets.len(), 2);
    assert!(f64::from_bits(buckets[0].min).is_nan());
    assert_eq!((buckets[0].first_ts, buckets[0].last_ts), (20, 20));
    assert_eq!(buckets[1].min, 3.0f64.to_bits());
}

#[test]
fn nothing_is_seen_outside_the_data_or_without_pixels() {
    let samples = bits(&[1.0, 2.0]);
    assert!(decimate_viewport(&[], &samples, &[0, 1], (5, 9), 10).is_empty());
    assert!(decimate_viewport(&[], &samples, &[0, 1], (0, 1), 0).is_empty());
}

#[test]
fn segments_are_powers_of_two_within_bounds() {
    assert_eq!(default_segment_length(0), MIN_SEGMENT_LEN);
    assert_eq!(default_segment_length(8 * 256), 256);
    assert_eq!(default_segment_length(8 * 512 - 1), 256);
    assert_eq!(default_segment_length(8 * 512), 512);
    assert_eq!(default_segment_length(8 * 1_000), 512);
    assert_eq!(default_segment_length(usize::MAX), MAX_SEGMENT_LEN);
}
