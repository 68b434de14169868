//! What the time-domain view draws and writes.

use glyde::dsp::decimation::{build_pyramid, decimate_viewport, Bucket};
use glyde::index::bytes::ByteOrder;
use glyde::index::level0::{build, try_open};
use glyde::ingest::{pyramids_for, Dataset, ProgressiveValues, TimeAxis, Timestamps};
use glyde::series::{Series, SeriesValues, ShownSample};
use glyde::time::{TimeUnit, Timestamp, TimestampFormat};
use glyde::view::time::{
    absolute_ticks_per_second, bucket_bars, bucket_is_gap, bucket_segments, cache_column_samples,
    column_f64_samples, data_extent, draw_dataset, finite_min_max, format_cursor_time,
    format_x_axis_tick, is_converged, nearest_tick_index, query_range, ticks_can_be_centered,
    ColumnDrawing, PlotBar, PlotPoint, ShownTime,
};

fn bits(values: &[f64]) -> Vec<u64> {
    values.iter().map(|v| v.to_bits()).collect()
}

fn progressive(values: &[f64]) -> TimeAxis {
    TimeAxis::Progressive {
        values: ProgressiveValues::Memory(bits(values)),
    }
}

fn absolute(timestamps: Vec<Timestamp>, format: TimestampFormat) -> TimeAxis {
    TimeAxis::Absolute {
        timestamps: Timestamps::Memory(timestamps),
        format,
    }
}

fn bucket(min: f64, max: f64, first_ts: i128, last_ts: i128, nan_count: u64) -> Bucket {
    Bucket {
        min: min.to_bits(),
        max: max.to_bits(),
        first_ts,
        last_ts,
        nan_count,
    }
}

fn point(tick: i128, value: f64) -> PlotPoint {
    PlotPoint {
        tick,
        value: value.to_bits(),
    }
}

#[test]
fn nearest_tick_index_of_an_empty_slice_is_none() {
    assert_eq!(nearest_tick_index(&[], 0), None);
}

#[test]
fn nearest_tick_index_finds_an_exact_match() {
    let ticks = [0, 10, 20, 30];

    assert_eq!(nearest_tick_index(&ticks, 20), Some(2));
}

#[test]
fn nearest_tick_index_clamps_to_the_first_and_last_entry() {
    let ticks = [10, 20, 30];

    assert_eq!(nearest_tick_index(&ticks, -100), Some(0));
    assert_eq!(nearest_tick_index(&ticks, 100), Some(2));
}

#[test]
fn nearest_tick_index_picks_whichever_neighbor_is_closer() {
    let ticks = [0, 10];

    assert_eq!(nearest_tick_index(&ticks, 3), Some(0));
    assert_eq!(nearest_tick_index(&ticks, 7), Some(1));
}

#[test]
fn nearest_tick_index_breaks_a_tie_towards_the_earlier_index() {
    let ticks = [0, 10];

    assert_eq!(nearest_tick_index(&ticks, 5), Some(0));
}

#[test]
fn nearest_tick_index_takes_the_widest_distances() {
    let ticks = [i128::MIN, i128::MAX];

    assert_eq!(nearest_tick_index(&ticks, -1), Some(0));
    assert_eq!(nearest_tick_index(&ticks, 0), Some(1));
}

#[test]
fn query_range_falls_back_to_the_full_tick_range_when_plot_bounds_is_invalid() {
    let ticks = [10, 20, 30];

    assert_eq!(query_range(None, &ticks), (10, 30));
}

#[test]
fn query_range_of_an_empty_tick_slice_falls_back_to_a_degenerate_zero_range() {
    assert_eq!(query_range(None, &[]), (0, 0));
    assert_eq!(query_range(Some((5, 6)), &[]), (0, 0));
}

#[test]
fn query_range_recovers_from_egui_plots_own_sanitized_bootstrap_bounds() {
    let ticks = [1_767_225_600_000_000_000_i128, 1_767_225_605_000_000_000];

    let range = query_range(Some((-1_000_000_000, 1_000_000_000)), &ticks);

    assert_eq!(range, (ticks[0], ticks[1]));
}

#[test]
fn query_range_snaps_back_to_the_full_range_when_bounds_are_valid_but_disjoint_from_the_data() {
    let ticks = [0, 1, 2];

    assert_eq!(query_range(Some((100, 200)), &ticks), (0, 2));
}

#[test]
fn query_range_uses_real_bounds_when_they_overlap_the_data() {
    let ticks = [0, 1, 2, 3, 4, 5];

    assert_eq!(query_range(Some((1, 3)), &ticks), (1, 3));
}

#[test]
fn is_converged_is_true_when_every_sample_fits_its_own_pixel_column() {
    let ticks = [0, 1, 2, 3];

    assert!(is_converged(&ticks, (0, 3), 10));
    assert!(is_converged(&ticks, (0, 3), 4));
}

#[test]
fn is_converged_is_false_when_more_samples_than_pixel_columns_are_in_range() {
    let ticks: Vec<i128> = (0..100).collect();

    assert!(!is_converged(&ticks, (0, 99), 10));
}

#[test]
fn is_converged_of_an_empty_range_is_vacuously_true() {
    let ticks = [0, 1, 2];

    assert!(is_converged(&ticks, (10, 20), 1));
}

#[test]
fn bucket_segments_connects_consecutive_non_gap_buckets_into_one_run() {
    let buckets = vec![bucket(1.0, 1.0, 0, 0, 0), bucket(2.0, 2.0, 1, 1, 0)];

    assert_eq!(
        bucket_segments(&buckets),
        vec![vec![point(0, 1.0), point(1, 2.0)]]
    );
}

#[test]
fn bucket_segments_breaks_into_separate_runs_at_a_gap_bucket() {
    let buckets = vec![
        bucket(1.0, 1.0, 0, 0, 0),
        bucket(f64::NAN, f64::NAN, 1, 1, 1),
        bucket(3.0, 3.0, 2, 2, 0),
    ];

    assert_eq!(
        bucket_segments(&buckets),
        vec![vec![point(0, 1.0)], vec![point(2, 3.0)]]
    );
}

#[test]
fn bars_stand_for_extents_and_dots_for_single_values() {
    let buckets = vec![
        bucket(1.0, 4.0, -5, -2, 0),
        bucket(f64::INFINITY, f64::NEG_INFINITY, 0, 7, 8),
        bucket(2.0, 2.0, 8, 15, 0),
        bucket(-0.0, 0.0, 16, 17, 0),
    ];

    let (bars, dots) = bucket_bars(&buckets);

    assert_eq!(
        bars,
        vec![PlotBar {
            tick: -3,
            low: 1.0f64.to_bits(),
            high: 4.0f64.to_bits(),
        }]
    );
    assert_eq!(dots, vec![point(11, 2.0), point(16, -0.0)]);
}

#[test]
fn value_as_f64_reads_every_numeric_dtype() {
    assert_eq!(
        SeriesValues::I64(vec![42]).f64_at(0),
        Some(42.0f64.to_bits())
    );
    assert_eq!(
        SeriesValues::F32(vec![1.5f32.to_bits()]).f64_at(0),
        Some(1.5f64.to_bits())
    );
    assert_eq!(
        SeriesValues::F64(bits(&[2.5])).f64_at(0),
        Some(2.5f64.to_bits())
    );
    assert_eq!(SeriesValues::U8(vec![7]).f64_at(0), Some(7.0f64.to_bits()));
}

#[test]
fn value_as_f64_of_bool_or_string_is_none() {
    assert_eq!(SeriesValues::Bool(vec![true]).f64_at(0), None);
    assert_eq!(SeriesValues::String(vec!["x".to_string()]).f64_at(0), None);
}

#[test]
fn format_series_value_keeps_exact_integer_text() {
    assert_eq!(
        SeriesValues::I64(vec![9_007_199_254_740_993]).display_at(0),
        Some(ShownSample::Digits("9007199254740993".to_string()))
    );
}

fn text_of(shown: Option<ShownTime>) -> String {
    match shown {
        Some(ShownTime::Text(text)) => text,
        _ => panic!("a timestamp is shown as a text"),
    }
}

#[test]
fn format_cursor_time_round_trips_an_absolute_timestamp_in_its_own_format() {
    let time = absolute(
        vec![Timestamp::with_offset(0, TimeUnit::Nanoseconds, 2 * 3600)],
        TimestampFormat::Iso8601WithOffset,
    );

    let text = text_of(format_cursor_time(&time, 0));

    assert!(text.contains("02:00"), "must honor the offset: {text}");
    assert_eq!(format_cursor_time(&time, 1), None);
}

#[test]
fn format_cursor_time_of_a_progressive_index_shows_the_plain_number() {
    let time = progressive(&[0.0, 1.0, 2.0]);

    assert_eq!(
        format_cursor_time(&time, 1),
        Some(ShownTime::Number(1.0f64.to_bits()))
    );
}

fn label_at(time: &TimeAxis, tick: i128) -> String {
    match time {
        TimeAxis::Absolute { timestamps, format } => {
            format_x_axis_tick(&time.to_pyramid_ticks(), tick, timestamps, *format)
        }
        TimeAxis::Progressive { .. } => panic!("only an axis of timestamps has labels"),
    }
}

#[test]
fn format_x_axis_tick_formats_an_absolute_axis_like_the_cursor_readout() {
    let time = absolute(
        vec![Timestamp::with_offset(0, TimeUnit::Nanoseconds, 2 * 3600)],
        TimestampFormat::Iso8601WithOffset,
    );

    let text = label_at(&time, 0);

    assert!(text.contains("02:00"), "must honor the offset: {text}");
    assert_eq!(text, text_of(format_cursor_time(&time, 0)));
}

#[test]
fn format_x_axis_tick_converts_a_grid_value_that_is_not_an_existing_sample() {
    let time = absolute(
        vec![Timestamp::new(0, TimeUnit::Seconds)],
        TimestampFormat::EpochSeconds,
    );

    assert_eq!(label_at(&time, 1), "1");
}

#[test]
fn format_x_axis_tick_uses_the_nearest_samples_own_offset_not_the_first_samples() {
    let time = absolute(
        vec![
            Timestamp::with_offset(0, TimeUnit::Seconds, 3600),
            Timestamp::with_offset(3600, TimeUnit::Seconds, 2 * 3600),
        ],
        TimestampFormat::Iso8601WithOffset,
    );

    let text = label_at(&time, 3600);

    assert!(
        text.contains("02:00"),
        "must use the second sample's own offset, not the first's: {text}"
    );
}

#[test]
fn an_axis_without_samples_has_no_labels() {
    assert_eq!(
        label_at(&absolute(Vec::new(), TimestampFormat::EpochSeconds), 1),
        ""
    );
}

#[test]
fn an_extent_covers_every_plotted_series_and_may_be_a_single_value() {
    let x = bits(&[0.0, 1.0, 2.0]);
    let columns = vec![Series::new(
        "value".to_string(),
        SeriesValues::F64(bits(&[5.0, 5.0, 5.0])),
    )];

    let (x_extent, y_extent) = data_extent(&x, &columns).expect("must compute bounds");

    assert_eq!(x_extent, (0.0f64.to_bits(), 2.0f64.to_bits()));
    assert_eq!(y_extent, (5.0f64.to_bits(), 5.0f64.to_bits()));
}

#[test]
fn data_bounds_ignores_non_numeric_columns() {
    let x = bits(&[0.0, 1.0]);
    let columns = vec![Series::new(
        "state".to_string(),
        SeriesValues::String(vec!["on".to_string(), "off".to_string()]),
    )];

    assert_eq!(data_extent(&x, &columns), None);
}

#[test]
fn an_extent_spans_columns_of_every_kind() {
    let columns = vec![
        Series::new("a".to_string(), SeriesValues::I64(vec![3, -7])),
        Series::new("b".to_string(), SeriesValues::Bool(vec![true, false])),
        Series::new(
            "c".to_string(),
            SeriesValues::F64(bits(&[f64::INFINITY, 11.5])),
        ),
    ];
    assert_eq!(
        data_extent(&bits(&[1.0, 2.0]), &columns),
        Some((
            (1.0f64.to_bits(), 2.0f64.to_bits()),
            ((-7.0f64).to_bits(), 11.5f64.to_bits())
        ))
    );
}

#[test]
fn an_extent_leaves_out_what_is_not_finite() {
    assert_eq!(
        finite_min_max(&bits(&[f64::NAN, 3.0, f64::INFINITY, -1.5, f64::NEG_INFINITY])),
        Some(((-1.5f64).to_bits(), 3.0f64.to_bits()))
    );
    assert_eq!(finite_min_max(&bits(&[f64::NAN, f64::INFINITY])), None);
}

#[test]
fn the_first_timestamp_says_how_long_a_tick_is() {
    let time = absolute(
        vec![Timestamp::new(0, TimeUnit::Picoseconds)],
        TimestampFormat::Iso8601WithOffset,
    );
    assert_eq!(absolute_ticks_per_second(&time), Some(1_000_000_000_000));
    assert_eq!(absolute_ticks_per_second(&progressive(&[0.0])), None);
    assert_eq!(
        absolute_ticks_per_second(&absolute(Vec::new(), TimestampFormat::EpochSeconds)),
        None
    );
}

#[test]
fn column_f64_samples_is_zero_copy_for_an_f64_series_even_with_no_cache() {
    let values = SeriesValues::F64(bits(&[1.0, 2.0, 3.0]));

    let samples = column_f64_samples(&values, None, None);

    assert_eq!(samples, bits(&[1.0, 2.0, 3.0]));
}

#[test]
fn column_f64_samples_of_a_non_f64_dtype_reads_the_cache_instead_of_converting() {
    let values = SeriesValues::I64(vec![1, 2, 3]);
    let cached = bits(&[1.0, 2.0, 3.0]);

    let samples = column_f64_samples(&values, Some(&cached), None);

    assert_eq!(samples.as_ptr(), cached.as_ptr());
}

#[test]
fn column_f64_samples_of_a_non_f64_dtype_with_no_cache_falls_back_to_empty() {
    let values = SeriesValues::I64(vec![1, 2, 3]);

    let samples = column_f64_samples(&values, None, None);

    assert!(samples.is_empty());
}

#[test]
fn column_f64_samples_of_a_non_numeric_series_is_empty() {
    let values = SeriesValues::Bool(vec![true, false]);
    let samples = column_f64_samples(&values, None, None);

    assert!(samples.is_empty());
}

#[test]
fn column_f64_samples_prefers_the_level0_cache_over_both_other_sources() {
    let files = build(&bits(&[9.0, 8.0, 7.0]), &[0, 1, 2], ByteOrder::Little);
    let level0 = try_open(
        Some(&files.timestamps),
        Some(&files.values),
        ByteOrder::Little,
    )
    .expect("what was written must be readable");

    let values = SeriesValues::F64(bits(&[1.0, 2.0, 3.0]));
    let cached = bits(&[1.0, 2.0, 3.0]);

    let samples = column_f64_samples(&values, Some(&cached), Some(&level0));

    assert_eq!(samples, bits(&[9.0, 8.0, 7.0]));
}

fn dataset_of(values: SeriesValues, time: &[f64]) -> Dataset {
    Dataset {
        time: progressive(time),
        time_column_name: "index".to_string(),
        columns: vec![Series::new("value".to_string(), values)],
    }
}

#[test]
fn cache_column_samples_is_none_for_an_already_f64_column() {
    let dataset = dataset_of(SeriesValues::F64(bits(&[1.0, 2.0])), &[0.0, 1.0]);

    assert_eq!(cache_column_samples(&dataset), vec![None]);
}

#[test]
fn cache_column_samples_converts_a_non_f64_numeric_column() {
    let dataset = dataset_of(SeriesValues::I64(vec![1, 2, 3]), &[0.0, 1.0, 2.0]);

    assert_eq!(
        cache_column_samples(&dataset),
        vec![Some(bits(&[1.0, 2.0, 3.0]))]
    );
}

#[test]
fn cache_column_samples_is_none_for_a_non_numeric_column() {
    let dataset = dataset_of(
        SeriesValues::String(vec!["on".to_string(), "off".to_string()]),
        &[0.0, 1.0],
    );

    assert_eq!(cache_column_samples(&dataset), vec![None]);
}

#[test]
fn bucket_is_gap_detects_a_nan_sample_and_an_all_nan_aggregate() {
    assert!(bucket_is_gap(&bucket(f64::NAN, f64::NAN, 0, 0, 1)));
    assert!(bucket_is_gap(&bucket(
        f64::INFINITY,
        f64::NEG_INFINITY,
        0,
        7,
        8
    )));
}

#[test]
fn bucket_is_gap_is_false_for_a_bucket_with_any_finite_reading() {
    assert!(!bucket_is_gap(&bucket(1.5, 1.5, 0, 0, 0)));
    assert!(!bucket_is_gap(&bucket(2.0, 2.0, 0, 7, 7)));
}

#[test]
fn bucket_is_gap_is_false_for_an_infinite_reading() {
    assert!(!bucket_is_gap(&bucket(1.0, f64::INFINITY, 0, 1, 0)));
}

#[test]
fn every_nan_sample_is_a_gap_of_its_own() {
    let samples = bits(&[1.0, 2.0, f64::NAN, f64::NAN, f64::NAN, 6.0, 7.0]);
    let ticks: Vec<i128> = (0..7).collect();

    let buckets = decimate_viewport(&[], &samples, &ticks, (0, 6), 7);
    assert_eq!(buckets.len(), 7);
    assert_eq!(buckets.iter().filter(|b| bucket_is_gap(b)).count(), 3);

    let dataset = dataset_of(
        SeriesValues::F64(samples),
        &[0.0, 1.0, 2.0, 3.0, 4.0, 5.0, 6.0],
    );
    let ticks = dataset.time.to_pyramid_ticks();
    let range = query_range(None, &ticks);
    let drawn = draw_dataset(
        &dataset,
        &pyramids_for(&dataset),
        &ticks,
        &cache_column_samples(&dataset),
        &[],
        range,
        100,
    );
    assert_eq!(drawn.len(), 1);
    match &drawn[0].drawing {
        ColumnDrawing::Lines { segments } => {
            let lengths: Vec<usize> = segments.iter().map(Vec::len).collect();
            assert_eq!(lengths, vec![2, 2]);
        }
        ColumnDrawing::Bars { .. } => panic!("there is room for every sample"),
    }
}

#[test]
fn a_large_column_is_drawn_as_bars_and_keeps_its_spike() {
    let count: i128 = 200_000;
    let mut values: Vec<i64> = vec![0; count as usize];
    values[123_456] = 99;
    let dataset = Dataset {
        time: absolute(
            (0..count)
                .map(|i| Timestamp::new(i, TimeUnit::Seconds))
                .collect(),
            TimestampFormat::EpochSeconds,
        ),
        time_column_name: "timestamp".to_string(),
        columns: vec![
            Series::new(
                "state".to_string(),
                SeriesValues::Bool(vec![true; count as usize]),
            ),
            Series::new("value".to_string(), SeriesValues::I64(values)),
        ],
    };
    let ticks = dataset.time.to_pyramid_ticks();
    assert!(ticks_can_be_centered(&ticks));
    let converted = cache_column_samples(&dataset);
    assert!(converted[1].is_some());

    let drawn = draw_dataset(
        &dataset,
        &pyramids_for(&dataset),
        &ticks,
        &converted,
        &[],
        query_range(None, &ticks),
        800,
    );

    assert_eq!(drawn.len(), 1, "states are not drawn");
    assert_eq!((drawn[0].column, drawn[0].color), (1, 0));
    match &drawn[0].drawing {
        ColumnDrawing::Bars { bars, dots } => {
            assert_eq!(bars.len(), 1);
            assert_eq!(bars[0].high, 99.0f64.to_bits());
            assert_eq!(bars.len() + dots.len(), 800);
        }
        ColumnDrawing::Lines { .. } => panic!("there is no room for every sample"),
    }
}

#[test]
fn a_pyramid_changes_nothing_of_what_is_seen() {
    let samples: Vec<u64> = (0..5_000u64)
        .map(|i| ((i as f64 * 0.037).sin() * 1000.0).to_bits())
        .collect();
    let ticks: Vec<i128> = (0..5_000).collect();
    let pyramid = build_pyramid(&samples, &ticks);
    for (range, columns) in [((0, 4_999), 100), ((17, 3_210), 33), ((100, 140), 64)] {
        assert_eq!(
            decimate_viewport(&pyramid, &samples, &ticks, range, columns),
            decimate_viewport(&[], &samples, &ticks, range, columns)
        );
    }
}
