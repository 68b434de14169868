//! Columns, their types and what was noticed about them.

use glyde::series::dtype::Promoted;
use glyde::series::samples::collect_samples;
use glyde::series::{
    detect_nan_runs, Anomalies, Dtype, SampleSource, Series, SeriesValues, ShownSample, ViewKind,
    SAMPLE_CHUNK_LEN,
};

fn bits(values: &[f64]) -> Vec<u64> {
    values.iter().map(|v| v.to_bits()).collect()
}

fn f64s(values: &[f64]) -> SeriesValues {
    SeriesValues::F64(bits(values))
}

fn f32s(values: &[f32]) -> SeriesValues {
    SeriesValues::F32(values.iter().map(|v| v.to_bits()).collect())
}

fn numbers(samples: Option<Vec<u64>>) -> Option<Vec<f64>> {
    samples.map(|s| s.into_iter().map(f64::from_bits).collect())
}

#[test]
fn default_anomalies_is_empty() {
    assert!(Anomalies::default().is_empty());
}

#[test]
fn a_single_flagged_outlier_makes_it_non_empty() {
    let anomalies = Anomalies {
        outliers: vec![3],
        ..Anomalies::default()
    };

    assert!(!anomalies.is_empty());
}

#[test]
fn a_single_nan_run_makes_it_non_empty() {
    let anomalies = Anomalies {
        nan_runs: vec![2..5],
        ..Anomalies::default()
    };

    assert!(!anomalies.is_empty());
}

#[test]
fn a_single_skipped_row_makes_it_non_empty() {
    let anomalies = Anomalies {
        skipped_rows: vec![0],
        ..Anomalies::default()
    };

    assert!(!anomalies.is_empty());
}

#[test]
fn detect_nan_runs_merges_a_consecutive_run_into_one_range() {
    let values = bits(&[10.0, 10.1, f64::NAN, f64::NAN, f64::NAN, 10.5, 10.6]);

    assert_eq!(detect_nan_runs(&values), vec![2..5]);
}

#[test]
fn detect_nan_runs_reports_two_separate_runs_as_two_ranges() {
    let values = bits(&[f64::NAN, 1.0, f64::NAN, f64::NAN, 2.0]);

    assert_eq!(detect_nan_runs(&values), vec![0..1, 2..4]);
}

#[test]
fn detect_nan_runs_is_empty_for_a_run_free_series() {
    assert!(detect_nan_runs(&bits(&[1.0, 2.0, 3.0])).is_empty());
}

#[test]
fn detect_nan_runs_does_not_flag_infinities() {
    assert!(detect_nan_runs(&bits(&[1.0, f64::INFINITY, f64::NEG_INFINITY, 1.0])).is_empty());
}

#[test]
fn detect_nan_runs_flags_every_nan_pattern() {
    let values = vec![
        f64::NAN.to_bits() | 1,
        0x7ff0_0000_0000_0001,
        0xfff8_0000_0000_0000,
    ];
    assert_eq!(detect_nan_runs(&values), vec![0..3]);
}

#[test]
fn dtype_view_kind_routes_bool_and_string_to_the_state_timeline() {
    assert_eq!(Dtype::Bool.view_kind(), ViewKind::StateTimeline);
    assert_eq!(Dtype::String.view_kind(), ViewKind::StateTimeline);
}

#[test]
fn dtype_view_kind_routes_every_numeric_dtype_to_the_time_domain() {
    for dtype in [
        Dtype::I8,
        Dtype::I16,
        Dtype::I32,
        Dtype::I64,
        Dtype::U8,
        Dtype::U16,
        Dtype::U32,
        Dtype::U64,
        Dtype::F32,
        Dtype::F64,
    ] {
        assert_eq!(dtype.view_kind(), ViewKind::TimeDomain);
    }
}

#[test]
fn series_values_reports_its_own_dtype_and_length() {
    let values = f64s(&[1.0, 2.0, 3.0]);

    assert_eq!(values.dtype(), Dtype::F64);
    assert_eq!(values.len(), 3);
    assert!(!values.is_empty());
}

#[test]
fn empty_series_values_is_empty() {
    assert!(SeriesValues::F64(Vec::new()).is_empty());
}

#[test]
fn is_constant_is_true_for_a_repeated_value() {
    assert!(f64s(&[42.0, 42.0, 42.0, 42.0]).is_constant());
}

#[test]
fn is_constant_is_false_when_a_value_differs() {
    assert!(!f64s(&[42.0, 42.0, 7.0, 42.0]).is_constant());
}

#[test]
fn is_constant_is_vacuously_true_for_a_single_sample() {
    assert!(SeriesValues::I64(vec![5]).is_constant());
}

#[test]
fn is_constant_is_vacuously_true_for_an_empty_series() {
    assert!(SeriesValues::I64(Vec::new()).is_constant());
}

#[test]
fn is_constant_treats_identically_bit_patterned_nan_as_equal() {
    let nan = f64::NAN;
    assert!(f64s(&[nan, nan, nan]).is_constant());
}

#[test]
fn to_f64_vec_promotes_every_numeric_dtype_losslessly() {
    assert_eq!(
        numbers(SeriesValues::I64(vec![-1, 0, 42]).to_f64_vec()),
        Some(vec![-1.0, 0.0, 42.0])
    );
    assert_eq!(
        numbers(SeriesValues::U8(vec![0, 255]).to_f64_vec()),
        Some(vec![0.0, 255.0])
    );
    assert_eq!(
        numbers(f32s(&[1.5]).to_f64_vec()),
        Some(vec![1.5_f32 as f64])
    );
    assert_eq!(
        numbers(f64s(&[1.5, 2.5]).to_f64_vec()),
        Some(vec![1.5, 2.5])
    );
}

#[test]
fn to_f64_vec_is_none_for_bool_and_string() {
    assert_eq!(SeriesValues::Bool(vec![true]).to_f64_vec(), None);
    assert_eq!(
        SeriesValues::String(vec!["on".to_string()]).to_f64_vec(),
        None
    );
}

#[test]
fn to_f64_vec_of_i64_beyond_the_exact_range_still_converts_without_panicking() {
    let huge = (1i64 << 53) + 1;
    let result = numbers(SeriesValues::I64(vec![huge, -huge]).to_f64_vec())
        .expect("i64 must convert");
    assert_eq!(result, vec![huge as f64, -huge as f64]);
}

#[test]
fn to_f64_vec_of_u64_beyond_the_exact_range_still_converts_without_panicking() {
    let huge = (1u64 << 53) + 1;
    let result = numbers(SeriesValues::U64(vec![huge]).to_f64_vec()).expect("u64 must convert");
    assert_eq!(result, vec![huge as f64]);
}

#[test]
fn to_f64_vec_of_i64_at_or_within_the_exact_range_is_unaffected() {
    let boundary = 1i64 << 53;
    let result = numbers(SeriesValues::I64(vec![boundary, -boundary]).to_f64_vec())
        .expect("i64 must convert");
    assert_eq!(result, vec![boundary as f64, -boundary as f64]);
}

#[test]
fn f64_at_checked_of_i64_beyond_the_exact_range_matches_to_f64_vec() {
    let huge = (1i64 << 53) + 1;
    let values = SeriesValues::I64(vec![huge, -huge]);
    let expected = values.to_f64_vec().expect("i64 must convert");

    for (i, &expected) in expected.iter().enumerate() {
        assert_eq!(
            values.f64_at_checked(i),
            Some(Promoted {
                bits: expected,
                exact: false
            })
        );
    }
}

#[test]
fn f64_at_checked_of_u64_beyond_the_exact_range_matches_to_f64_vec() {
    let huge = (1u64 << 53) + 1;
    let values = SeriesValues::U64(vec![huge]);
    let expected = values.to_f64_vec().expect("u64 must convert");

    assert_eq!(values.f64_at_checked(0).map(|p| p.bits), Some(expected[0]));
}

#[test]
fn f64_at_checked_agrees_with_f64_at_for_every_numeric_dtype_within_exact_range() {
    assert_eq!(
        SeriesValues::I32(vec![42])
            .f64_at_checked(0)
            .map(|p| p.bits),
        SeriesValues::I32(vec![42]).f64_at(0)
    );
    assert_eq!(
        f64s(&[1.5]).f64_at_checked(0).map(|p| p.bits),
        f64s(&[1.5]).f64_at(0)
    );
    assert_eq!(SeriesValues::Bool(vec![true]).f64_at_checked(0), None);
}

#[test]
fn f64_at_checked_is_none_past_the_end() {
    assert_eq!(SeriesValues::I64(vec![1]).f64_at_checked(5), None);
}

#[test]
fn integers_promote_to_the_nearest_number_with_ties_to_even() {
    for n in [
        0i64,
        1,
        -1,
        (1 << 53) - 1,
        (1 << 53) + 1,
        (1 << 53) + 3,
        (1 << 62) + 255,
        i64::MAX,
        i64::MIN,
    ] {
        assert_eq!(
            SeriesValues::I64(vec![n]).f64_at(0),
            Some((n as f64).to_bits()),
            "{n}"
        );
    }
    for n in [u64::MAX, (1 << 63) + 1024, (1 << 63) + 1025, (1 << 63) + 3072] {
        assert_eq!(
            SeriesValues::U64(vec![n]).f64_at(0),
            Some((n as f64).to_bits()),
            "{n}"
        );
    }
}

#[test]
fn binary32_numbers_widen_to_the_same_number() {
    for x in [
        0.0f32,
        -0.0,
        1.5,
        -2.25,
        f32::MIN_POSITIVE,
        f32::MIN_POSITIVE / 8.0,
        f32::MAX,
        f32::INFINITY,
        f32::NEG_INFINITY,
    ] {
        assert_eq!(
            f32s(&[x]).f64_at(0),
            Some(f64::from(x).to_bits()),
            "{x}"
        );
    }
    assert!(f64::from_bits(f32s(&[f32::NAN]).f64_at(0).expect("a number")).is_nan());
}

#[test]
fn a_new_series_has_no_anomalies() {
    let series = Series::new("value".to_string(), f64s(&[1.0, 2.0, 3.0]));

    assert!(series.anomalies().is_empty());
}

#[test]
fn series_exposes_its_name_dtype_and_length() {
    let series = Series::new("temperature".to_string(), f64s(&[1.0, 2.0]));

    assert_eq!(series.name(), "temperature");
    assert_eq!(series.dtype(), Dtype::F64);
    assert_eq!(series.len(), 2);
    assert!(!series.is_empty());
}

#[test]
fn bool_and_string_series_route_to_the_state_timeline() {
    let flag = Series::new("flag".to_string(), SeriesValues::Bool(vec![true, false]));
    let state = Series::new(
        "state".to_string(),
        SeriesValues::String(vec!["running".to_string(), "idle".to_string()]),
    );

    assert_eq!(flag.view_kind(), ViewKind::StateTimeline);
    assert_eq!(state.view_kind(), ViewKind::StateTimeline);
}

#[test]
fn numeric_series_routes_to_the_time_domain() {
    let series = Series::new("value".to_string(), f64s(&[1.0, 2.0]));

    assert_eq!(series.view_kind(), ViewKind::TimeDomain);
}

#[test]
fn a_constant_series_is_a_valid_input_and_reports_itself_as_constant() {
    let series = Series::new("value".to_string(), f64s(&[42.0, 42.0, 42.0, 42.0]));

    assert!(series.is_constant());
    assert!(series.anomalies().is_empty());
    assert_eq!(series.len(), 4);
}

#[test]
fn a_single_sample_series_is_valid_and_vacuously_constant() {
    let series = Series::new("value".to_string(), f64s(&[42.0]));

    assert!(series.is_constant());
    assert_eq!(series.len(), 1);
}

#[test]
fn with_anomalies_attaches_the_given_anomaly_container() {
    let anomalies = Anomalies {
        skipped_rows: vec![2],
        ..Anomalies::default()
    };
    let series =
        Series::with_anomalies("value".to_string(), f64s(&[1.0, 2.0]), anomalies.clone());

    assert_eq!(series.anomalies(), &anomalies);
}

#[test]
fn display_at_writes_integers_out_and_hands_numbers_on() {
    assert_eq!(
        SeriesValues::I8(vec![-128]).display_at(0),
        Some(ShownSample::Digits("-128".to_string()))
    );
    assert_eq!(
        f64s(&[2.5]).display_at(0),
        Some(ShownSample::Double(2.5f64.to_bits()))
    );
    assert_eq!(
        f32s(&[2.5]).display_at(0),
        Some(ShownSample::Single(2.5f32.to_bits()))
    );
    assert_eq!(f64s(&[2.5]).display_at(1), None);
}

fn collect_chunks<S: SampleSource + ?Sized>(source: &S, start: usize, end: usize) -> Vec<Vec<u64>> {
    let mut chunks = Vec::new();
    let mut at = start;
    loop {
        let chunk = source.sample_chunk(at, end);
        if chunk.is_empty() {
            return chunks;
        }
        at += chunk.len();
        chunks.push(chunk);
    }
}

fn flatten<S: SampleSource + ?Sized>(source: &S, start: usize, end: usize) -> Vec<f64> {
    let joined: Vec<u64> = collect_chunks(source, start, end).concat();
    assert_eq!(joined, collect_samples(source, start, end));
    joined.into_iter().map(f64::from_bits).collect()
}

#[test]
fn every_numeric_dtype_reads_back_exactly_what_to_f64_vec_would_produce() {
    let columns = [
        SeriesValues::I8(vec![-1, 0, 42]),
        SeriesValues::I16(vec![-300, 7]),
        SeriesValues::I32(vec![-70_000, 12]),
        SeriesValues::I64(vec![-5, 9_007_199_254_740_993]),
        SeriesValues::U8(vec![0, 255]),
        SeriesValues::U16(vec![0, 65_535]),
        SeriesValues::U32(vec![7, 4_000_000_000]),
        SeriesValues::U64(vec![1, 18_000_000_000_000_000_000]),
        f32s(&[1.5, -2.25]),
        f64s(&[1.5, -2.25, 3.0]),
    ];

    for values in columns {
        let source = values
            .sample_source()
            .expect("every dtype here is numeric and has a sample source");
        assert_eq!(
            flatten(&source, 0, values.len()),
            numbers(values.to_f64_vec()).expect("numeric dtype converts"),
            "{:?} must stream exactly the values to_f64_vec produces",
            values.dtype()
        );
    }
}

#[test]
fn bool_and_string_columns_have_no_sample_source() {
    assert!(SeriesValues::Bool(vec![true, false])
        .sample_source()
        .is_none());
    assert!(SeriesValues::String(vec!["on".to_string()])
        .sample_source()
        .is_none());
}

#[test]
fn chunks_are_contiguous_in_row_order_and_bounded_in_length() {
    let count = SAMPLE_CHUNK_LEN * 2 + 17;
    let values = SeriesValues::I32((0..count as i32).collect());
    let source = values.sample_source().expect("i32 is numeric");

    let chunks = collect_chunks(&source, 0, count);
    assert_eq!(chunks.len(), 3);
    assert!(chunks
        .iter()
        .all(|chunk| !chunk.is_empty() && chunk.len() <= SAMPLE_CHUNK_LEN));
    assert_eq!(
        chunks.concat(),
        (0..count).map(|i| (i as f64).to_bits()).collect::<Vec<_>>()
    );
}

#[test]
fn a_sub_range_yields_only_that_ranges_own_samples() {
    let values = f64s(&[0.0, 1.0, 2.0, 3.0, 4.0]);
    let source = values.sample_source().expect("f64 is numeric");

    assert_eq!(flatten(&source, 1, 4), vec![1.0, 2.0, 3.0]);
}

#[test]
fn samples_a_range_past_the_end_is_clamped_rather_than_panicking() {
    let values = SeriesValues::U8(vec![1, 2, 3]);
    let source = values.sample_source().expect("u8 is numeric");

    assert_eq!(flatten(&source, 0, 99), vec![1.0, 2.0, 3.0]);
    assert!(flatten(&source, 99, 200).is_empty());
    assert!(flatten(&source, 2, 2).is_empty());
}

#[test]
fn an_empty_column_visits_nothing() {
    let values = SeriesValues::F64(Vec::new());
    let source = values.sample_source().expect("f64 is numeric");

    assert_eq!(source.sample_count(), 0);
    assert!(collect_chunks(&source, 0, 0).is_empty());
}

#[test]
fn a_plain_f64_slice_is_itself_a_sample_source() {
    let samples = bits(&[1.0, 2.0, 3.0, 4.0]);

    assert_eq!(samples.as_slice().sample_count(), 4);
    assert_eq!(flatten(samples.as_slice(), 1, 3), vec![2.0, 3.0]);
}
