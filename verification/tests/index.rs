//! The cache and spill files.

use glyde::dsp::decimation::build_pyramid;
use glyde::index::bytes::ByteOrder;
use glyde::index::header::FORMAT_VERSION;
use glyde::index::level0::{
    build, build_or_open, level0_file_names, stem_of_hash, try_open, CacheKey, Level0CacheWriter,
};
use glyde::index::pyramid;
use glyde::index::spill::{SpillStringsWriter, SpillVec, SpillVecWriter};
use glyde::ingest::overrides::{corrected_key, signed_key};
use glyde::ingest::{Delimiter, IngestOverrides};
use glyde::GlydeError;

const ORDERS: [ByteOrder; 2] = [ByteOrder::Little, ByteOrder::Big];

fn bits(values: &[f64]) -> Vec<u64> {
    values.iter().map(|v| v.to_bits()).collect()
}

fn sine_wave(sample_count: usize) -> (Vec<u64>, Vec<i128>) {
    let timestamps: Vec<i128> = (0..sample_count as i128).collect();
    let samples: Vec<u64> = (0..sample_count)
        .map(|i| (((i as f64) * 0.037).sin() * 1000.0).to_bits())
        .collect();
    (samples, timestamps)
}

#[test]
fn round_trips_samples_and_timestamps_through_build_and_mmap() {
    for order in ORDERS {
        let timestamps: Vec<i128> = vec![0, 1_000, 2_000, 3_000, 4_000];
        let samples = bits(&[1.5, -2.25, 0.0, f64::NAN, 1_000_000.125]);

        let files = build(&samples, &timestamps, order);
        let cache = try_open(Some(&files.timestamps), Some(&files.values), order)
            .expect("what was written must be readable");

        assert_eq!(cache.sample_count(), 5);
        assert_eq!(cache.timestamps(), timestamps.as_slice());
        assert_eq!(cache.samples(), samples.as_slice());
    }
}

#[test]
fn empty_input_round_trips_to_a_zero_sample_cache() {
    let files = build(&[], &[], ByteOrder::Little);
    let cache = try_open(
        Some(&files.timestamps),
        Some(&files.values),
        ByteOrder::Little,
    )
    .expect("an empty cache is a cache");

    assert_eq!(cache.sample_count(), 0);
    assert!(cache.samples().is_empty());
    assert!(cache.timestamps().is_empty());
}

#[test]
fn level0_build_or_open_reopens_an_existing_cache_without_rebuilding() {
    let timestamps: Vec<i128> = vec![0, 1, 2];
    let samples = bits(&[10.0, 20.0, 30.0]);
    let files = build(&samples, &timestamps, ByteOrder::Little);

    let wrong_timestamps: Vec<i128> = vec![99, 100];
    let wrong_samples = bits(&[-1.0, -2.0]);
    let (cache, to_write) = build_or_open(
        Some(&files.timestamps),
        Some(&files.values),
        &wrong_samples,
        &wrong_timestamps,
        ByteOrder::Little,
    );

    assert_eq!(cache.sample_count(), 3);
    assert_eq!(cache.timestamps(), timestamps.as_slice());
    assert_eq!(cache.samples(), samples.as_slice());
    assert!(to_write.is_none());

    let (rebuilt, to_write) = build_or_open(
        None,
        Some(&files.values),
        &wrong_samples,
        &wrong_timestamps,
        ByteOrder::Little,
    );
    assert_eq!(rebuilt.samples(), wrong_samples.as_slice());
    assert_eq!(
        to_write,
        Some(build(&wrong_samples, &wrong_timestamps, ByteOrder::Little))
    );
}

fn key(size: u64) -> CacheKey {
    CacheKey::for_source("/data/source.csv", size, Ok(1_700_000_000_000_000_000))
}

#[test]
fn level0_a_changed_source_file_misses_the_old_cache_and_rebuilds() {
    let key_v1 = key(11);
    let key_v2 = key(42);
    assert_ne!(
        key_v1, key_v2,
        "changing the source file must change its cache key"
    );
    assert_ne!(
        level0_file_names(&key_v1.cache_stem()),
        level0_file_names(&key_v2.cache_stem()),
        "the new key must not find the old files"
    );
    assert!(try_open(None, None, ByteOrder::Little).is_none());
}

#[test]
fn writer_push_and_whole_slice_build_agree() {
    let timestamps: Vec<i128> = (0..20).map(|i| i * 100).collect();
    let samples: Vec<u64> = (0..20).map(|i| (i as f64 * 0.5).to_bits()).collect();

    let mut writer = Level0CacheWriter::create(ByteOrder::Big);
    for (&ts, &value) in timestamps.iter().zip(&samples) {
        writer.push(ts, value);
    }

    assert_eq!(writer.finish(), build(&samples, &timestamps, ByteOrder::Big));
}

#[test]
fn try_open_reports_no_cache_instead_of_erroring_when_files_are_absent() {
    assert!(try_open(None, None, ByteOrder::Little).is_none());
}

#[test]
fn level0_a_cache_written_under_a_future_format_version_is_rejected_not_misread() {
    let mut files = build(&bits(&[1.0]), &[0], ByteOrder::Little);
    files.timestamps[8..12].copy_from_slice(&(FORMAT_VERSION + 1).to_le_bytes());
    files.values[8..12].copy_from_slice(&(FORMAT_VERSION + 1).to_le_bytes());

    assert!(
        try_open(
            Some(&files.timestamps),
            Some(&files.values),
            ByteOrder::Little
        )
        .is_none(),
        "another version is a miss, never misread"
    );
}

#[test]
fn files_of_different_lengths_or_cut_files_are_no_cache() {
    let files = build(&bits(&[1.0, 2.0]), &[0, 1], ByteOrder::Little);
    let other = build(&bits(&[1.0]), &[0], ByteOrder::Little);
    assert!(try_open(
        Some(&files.timestamps),
        Some(&other.values),
        ByteOrder::Little
    )
    .is_none());
    let cut = &files.values[..files.values.len() - 1];
    assert!(try_open(Some(&files.timestamps), Some(cut), ByteOrder::Little).is_none());
    assert!(try_open(
        Some(&files.timestamps),
        Some(&files.values),
        ByteOrder::Big
    )
    .is_none());
}

#[test]
fn round_trips_a_multi_level_pyramid_through_build_and_reopen() {
    let (samples, timestamps) = sine_wave(5_000);
    for order in ORDERS {
        let (built, file) = pyramid::build(&samples, &timestamps, order);
        assert!(
            built.len() > 1,
            "5,000 samples must produce multiple pyramid levels"
        );

        let reopened = pyramid::try_open(&file, order).expect("must be readable");

        assert_eq!(reopened, built);
        assert_eq!(reopened, build_pyramid(&samples, &timestamps));
    }
}

#[test]
fn empty_input_round_trips_to_a_zero_level_pyramid() {
    let (built, file) = pyramid::build(&[], &[], ByteOrder::Little);
    assert!(built.is_empty());

    let reopened = pyramid::try_open(&file, ByteOrder::Little).expect("must be readable");
    assert!(reopened.is_empty());
}

#[test]
fn pyramid_build_or_open_reopens_an_existing_cache_without_rebuilding() {
    let (samples, timestamps) = sine_wave(200);
    let (built, file) = pyramid::build(&samples, &timestamps, ByteOrder::Little);

    let wrong_timestamps: Vec<i128> = vec![99, 100, 101];
    let wrong_samples = bits(&[-1.0, -2.0, -3.0]);
    let (reopened, to_write) = pyramid::build_or_open(
        Some(&file),
        &wrong_samples,
        &wrong_timestamps,
        ByteOrder::Little,
    );

    assert_eq!(reopened, built);
    assert!(to_write.is_none());
}

#[test]
fn pyramid_a_changed_source_file_misses_the_old_cache_and_rebuilds() {
    let key_v1 = key(11);
    let key_v2 = key(42);
    assert_ne!(key_v1, key_v2);
    assert_ne!(
        pyramid::pyramid_file_name(&key_v1.cache_stem()),
        pyramid::pyramid_file_name(&key_v2.cache_stem())
    );
    let (rebuilt, to_write) =
        pyramid::build_or_open(None, &bits(&[1.0]), &[0], ByteOrder::Little);
    assert_eq!(rebuilt, build_pyramid(&bits(&[1.0]), &[0]));
    assert!(to_write.is_some());
}

#[test]
fn try_open_reports_no_cache_instead_of_erroring_when_the_file_is_absent() {
    assert!(pyramid::try_open(&[], ByteOrder::Little).is_none());
}

#[test]
fn pyramid_a_cache_written_under_a_future_format_version_is_rejected_not_misread() {
    let (_, mut file) = pyramid::build(&bits(&[1.0]), &[0], ByteOrder::Little);
    file[8..12].copy_from_slice(&(FORMAT_VERSION + 1).to_le_bytes());

    assert!(pyramid::try_open(&file, ByteOrder::Little).is_none());
}

#[test]
fn a_truncated_cache_file_is_rejected_not_misread() {
    let (samples, timestamps) = sine_wave(200);
    let (_, mut file) = pyramid::build(&samples, &timestamps, ByteOrder::Little);
    file.truncate(file.len() / 2);

    assert!(pyramid::try_open(&file, ByteOrder::Little).is_none());
}

#[test]
fn a_corrupted_level_count_field_is_rejected_not_misread() {
    let (_, mut file) = pyramid::build(&bits(&[1.0, 2.0]), &[0, 1], ByteOrder::Little);
    file[12..16].copy_from_slice(&u32::MAX.to_le_bytes());

    assert!(pyramid::try_open(&file, ByteOrder::Little).is_none());
}

#[test]
fn a_corrupted_bucket_count_field_is_rejected_not_misread() {
    let (samples, timestamps) = sine_wave(5_000);
    let (_, mut file) = pyramid::build(&samples, &timestamps, ByteOrder::Little);
    file[16..24].copy_from_slice(&u64::MAX.to_le_bytes());

    assert!(pyramid::try_open(&file, ByteOrder::Little).is_none());
}

#[test]
fn preserves_nan_bit_patterns_through_the_round_trip() {
    let timestamps: Vec<i128> = (0..20).collect();
    let samples: Vec<u64> = (0..20)
        .map(|i| if i % 5 == 0 { f64::NAN } else { i as f64 }.to_bits())
        .collect();

    let (built, file) = pyramid::build(&samples, &timestamps, ByteOrder::Little);
    let reopened = pyramid::try_open(&file, ByteOrder::Little).expect("must be readable");

    assert_eq!(built.len(), reopened.len());
    for (level_built, level_reopened) in built.iter().zip(reopened.iter()) {
        assert_eq!(level_built.len(), level_reopened.len());
        for (bucket_built, bucket_reopened) in level_built.iter().zip(level_reopened.iter()) {
            assert_eq!(bucket_built.min, bucket_reopened.min);
            assert_eq!(bucket_built.max, bucket_reopened.max);
            assert_eq!(bucket_built.nan_count, bucket_reopened.nan_count);
        }
    }
}

#[test]
fn round_trips_every_element_width_a_caller_spills() {
    for order in ORDERS {
        let mut ticks = SpillVecWriter::<i128>::create(order);
        for value in [i128::MIN, -1, 0, 1, i128::MAX] {
            ticks.push(value);
        }
        let ticks = ticks.finish();
        assert_eq!(ticks.len(), 5);
        assert_eq!(ticks.to_vec(), [i128::MIN, -1, 0, 1, i128::MAX]);
        assert_eq!(ticks.get(4), Some(i128::MAX));

        let mut counts = SpillVecWriter::<i64>::create(order);
        for value in [i64::MIN, 0, i64::MAX] {
            counts.push(value);
        }
        assert_eq!(counts.finish().to_vec(), [i64::MIN, 0, i64::MAX]);

        let mut flags = SpillVecWriter::<u8>::create(order);
        flags.extend_from_slice(&[1, 0, 1]);
        assert_eq!(flags.finish().to_vec(), [1, 0, 1]);
    }
}

#[test]
fn f64_samples_round_trip_bit_for_bit_including_nan() {
    let samples = bits(&[1.5, -0.0, f64::NAN, f64::INFINITY, f64::MIN_POSITIVE]);

    let mut writer = SpillVecWriter::<u64>::create(ByteOrder::Little);
    for &sample in &samples {
        writer.push(sample);
    }
    let spilled = writer.finish();

    assert_eq!(spilled.to_vec(), samples);

    let again =
        SpillVec::<u64>::from_file("x.glysp", spilled.file_bytes().to_vec(), 5, ByteOrder::Little)
            .expect("what was written must be readable");
    assert_eq!(again.to_vec(), samples);
}

#[test]
fn an_empty_spill_vec_round_trips() {
    let spilled = SpillVecWriter::<u64>::create(ByteOrder::Little).finish();

    assert!(spilled.is_empty());
    assert!(spilled.to_vec().is_empty());
    assert_eq!(spilled.get(0), None);
}

#[test]
fn strings_round_trip_including_empty_and_multibyte_fields() {
    let fields = [
        "running",
        "",
        "idle",
        "\u{b0}C \u{b5}m/s\u{b2}",
        "\u{e9}tat",
    ];

    let mut writer = SpillStringsWriter::create(ByteOrder::Little);
    for field in fields {
        writer.push(field);
    }
    let spilled = writer.finish();

    assert_eq!(spilled.len(), fields.len());
    assert_eq!(spilled.to_vec(), fields);
    assert_eq!(spilled.get(fields.len()), None);
}

#[test]
fn a_truncated_spill_file_is_reported_not_misread() {
    let err = SpillVec::<u64>::from_file(
        "truncated.glysp",
        b"not a spill file".to_vec(),
        2,
        ByteOrder::Little,
    )
    .err()
    .expect("a foreign file must not be misread as spilled samples");
    assert!(matches!(err, GlydeError::CorruptCache { .. }));
}

#[test]
fn every_fault_of_a_spill_file_is_told_apart() {
    let mut writer = SpillVecWriter::<u64>::create(ByteOrder::Little);
    writer.push(7);
    let file = writer.finish().file_bytes().to_vec();
    let reason = |file: Vec<u8>, expected: usize| {
        match SpillVec::<u64>::from_file("x", file, expected, ByteOrder::Little) {
            Err(GlydeError::CorruptCache { reason, .. }) => reason,
            _ => String::new(),
        }
    };

    assert_eq!(reason(file.clone(), 1), "");
    assert_eq!(
        reason(file[..9].to_vec(), 1),
        "spill file shorter than its own header"
    );
    let mut foreign = file.clone();
    foreign[0] = b'X';
    assert_eq!(reason(foreign, 1), "spill file magic does not match");
    let mut newer = file.clone();
    newer[8..12].copy_from_slice(&(FORMAT_VERSION + 1).to_le_bytes());
    assert_eq!(
        reason(newer, 1),
        "spill file written by a different format version"
    );
    let mut wider = file.clone();
    wider[12..16].copy_from_slice(&16u32.to_le_bytes());
    assert_eq!(
        reason(wider, 1),
        "spill file element width does not match the reader's"
    );
    assert_eq!(
        reason(file, 2),
        "spill file length does not match the element count written"
    );
}

#[test]
fn the_bytes_of_a_file_follow_its_byte_order() {
    let mut little = SpillVecWriter::<i64>::create(ByteOrder::Little);
    little.push(1);
    let mut big = SpillVecWriter::<i64>::create(ByteOrder::Big);
    big.push(1);
    assert_eq!(
        little.finish().file_bytes(),
        b"GLYDESP\0\x01\0\0\0\x08\0\0\0\x01\0\0\0\0\0\0\0"
    );
    assert_eq!(
        big.finish().file_bytes(),
        b"GLYDESP\0\0\0\0\x01\0\0\0\x08\0\0\0\0\0\0\0\x01"
    );
}

#[test]
fn a_stem_is_sixteen_hexadecimal_digits() {
    assert_eq!(stem_of_hash(0), "0000000000000000");
    assert_eq!(stem_of_hash(0xdead_beef), "00000000deadbeef");
    assert_eq!(stem_of_hash(u64::MAX), "ffffffffffffffff");
    let stem = key(1).cache_stem();
    assert_eq!(stem.len(), 16);
    assert!(stem.chars().all(|c| c.is_ascii_hexdigit()));
    assert_eq!(stem, key(1).cache_stem());
}

#[test]
fn a_key_counts_nanoseconds_on_both_sides_of_the_epoch() {
    assert_eq!(key(1).source_mtime_unix_nanos, 1_700_000_000_000_000_000);
    assert_eq!(
        CacheKey::for_source("a", 1, Err(5)).source_mtime_unix_nanos,
        -5
    );
}

#[test]
fn a_corrected_file_has_a_key_of_its_own() {
    let plain = key(1);
    assert_eq!(
        corrected_key(key(1), IngestOverrides::default()),
        plain,
        "without corrections nothing changes"
    );
    let corrected = corrected_key(
        key(1),
        IngestOverrides {
            delimiter: Some(Delimiter::Pipe),
            ..IngestOverrides::default()
        },
    );
    assert_ne!(corrected, plain);
    assert_ne!(corrected.cache_stem(), plain.cache_stem());
}

#[test]
fn a_signature_only_counts_with_corrections() {
    let overrides = IngestOverrides {
        delimiter: Some(Delimiter::Pipe),
        ..IngestOverrides::default()
    };
    assert_eq!(signed_key(key(1), IngestOverrides::default(), 7), key(1));
    let signed = signed_key(key(1), overrides, 7);
    assert_eq!(signed.overrides_signature, 7);
    assert_eq!(signed, key(1).with_overrides_signature(7));
}
