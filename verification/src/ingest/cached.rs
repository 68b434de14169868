//! The pyramids and the cached samples of a table's columns, taken from cache
//! files where there are usable ones.

use vstd::prelude::*;
use crate::dsp::decimation;
use crate::dsp::decimation::Bucket;
use crate::index::bytes::ByteOrder;
use crate::index::level0;
use crate::index::level0::{Level0Cache, Level0Files};
use crate::index::pyramid;
use crate::ingest::dataset;
use crate::ingest::dataset::Dataset;
use crate::series::dtype::Samples;
use crate::series::samples;
use crate::series::{Series, ViewKind};

verus! {

/// The pyramid of a column, and the file that is to be written for it.
pub struct CachedPyramid {
    pub pyramid: Option<Vec<Vec<Bucket>>>,
    pub to_write: Option<Vec<u8>>,
}

/// The file of a column, if there is one.
pub open spec fn file_at(files: Seq<Option<Vec<u8>>>, c: int) -> Option<Seq<u8>> {
    if 0 <= c < files.len() {
        match files[c] {
            Some(file) => Some(file@),
            None => None,
        }
    } else {
        None
    }
}

/// A column of states has no pyramid. That of a column of numbers is the one of
/// its cache file, where that is usable; else it is built and to be written.
pub open spec fn is_cached_pyramid(
    cached: CachedPyramid,
    samples: Samples,
    ticks: Seq<i128>,
    file: Option<Seq<u8>>,
    order: ByteOrder,
) -> bool {
    match cached.pyramid {
        None => samples.dtype().view_kind_spec() == ViewKind::StateTimeline && cached.to_write
            is None,
        Some(levels) => {
            &&& samples.dtype().view_kind_spec() == ViewKind::TimeDomain
            &&& match file {
                Some(file) if pyramid::is_pyramid_file(file, order) => {
                    &&& cached.to_write is None
                    &&& pyramid::pyramid_file(pyramid::level_views(levels@), order) == file
                },
                _ => {
                    &&& decimation::is_pyramid(levels@, samples::promotions(samples), ticks)
                    &&& cached.to_write matches Some(file)
                    &&& file@ == pyramid::pyramid_file(pyramid::level_views(levels@), order)
                },
            }
        },
    }
}

/// The pyramid of each column of a table.
pub fn pyramids_for_dataset_cached(
    dataset: &Dataset,
    files: &[Option<Vec<u8>>],
    order: ByteOrder,
) -> (cached: Vec<CachedPyramid>)
    requires
        dataset.wf(),
    ensures
        cached@.len() == dataset.columns@.len(),
        forall|c: int|
            0 <= c < cached@.len() ==> is_cached_pyramid(
                #[trigger] cached@[c],
                dataset.columns@[c].values_spec()@,
                dataset.time@.pyramid_ticks(),
                file_at(files@, c),
                order,
            ),
{
    let ticks: Vec<i128> = dataset.time.to_pyramid_ticks();
    let mut cached: Vec<CachedPyramid> = Vec::new();
    let mut c: usize = 0;
    while c < dataset.columns.len()
        invariant
            dataset.wf(),
            ticks@ == dataset.time@.pyramid_ticks(),
            ticks@.len() == dataset.time@.len(),
            c <= dataset.columns@.len(),
            cached@.len() == c,
            forall|k: int|
                0 <= k < c ==> is_cached_pyramid(
                    #[trigger] cached@[k],
                    dataset.columns@[k].values_spec()@,
                    ticks@,
                    file_at(files@, k),
                    order,
                ),
        decreases dataset.columns@.len() - c,
    {
        let series: &Series = &dataset.columns[c];
        assert(dataset.columns@[c as int].wf());
        let file: Option<&[u8]> = if c < files.len() {
            match &files[c] {
                Some(file) => Some(file.as_slice()),
                None => None,
            }
        } else {
            None
        };
        let one: CachedPyramid = match series.values().to_f64_vec() {
            Some(samples) => {
                assert(samples@ == samples::promotions(series.values_spec()@));
                let (levels, to_write) = pyramid::build_or_open(
                    file,
                    samples.as_slice(),
                    ticks.as_slice(),
                    order,
                );
                CachedPyramid { pyramid: Some(levels), to_write }
            },
            None => CachedPyramid { pyramid: None, to_write: None },
        };
        cached.push(one);
        c = c + 1;
    }
    cached
}

/// The cached samples of a column, and the files that are to be written for
/// them.
pub struct CachedLevel0 {
    pub cache: Option<Level0Cache>,
    pub to_write: Option<Level0Files>,
}

/// A column of states has no cache. That of a column of numbers is the one of
/// its cache files, where they are usable; else it is made of its samples and
/// to be written.
pub open spec fn is_cached_level0(
    cached: CachedLevel0,
    samples: Samples,
    ticks: Seq<i128>,
    timestamps_file: Option<Seq<u8>>,
    values_file: Option<Seq<u8>>,
    order: ByteOrder,
) -> bool {
    match cached.cache {
        None => samples.dtype().view_kind_spec() == ViewKind::StateTimeline && cached.to_write
            is None,
        Some(cache) => {
            &&& samples.dtype().view_kind_spec() == ViewKind::TimeDomain
            &&& cache.wf()
            &&& match level0::level0_contents(timestamps_file, values_file, order) {
                Some(contents) => cache@ == contents && cached.to_write is None,
                None => {
                    &&& cache@ == (ticks, samples::promotions(samples))
                    &&& cached.to_write matches Some(files)
                    &&& files.hold(ticks, samples::promotions(samples), order)
                },
            }
        },
    }
}

/// The cached samples of each column of a table.
pub fn level0_for_dataset_cached(
    dataset: &Dataset,
    timestamps_files: &[Option<Vec<u8>>],
    values_files: &[Option<Vec<u8>>],
    order: ByteOrder,
) -> (cached: Vec<CachedLevel0>)
    requires
        dataset.wf(),
    ensures
        cached@.len() == dataset.columns@.len(),
        forall|c: int|
            0 <= c < cached@.len() ==> is_cached_level0(
                #[trigger] cached@[c],
                dataset.columns@[c].values_spec()@,
                dataset.time@.pyramid_ticks(),
                file_at(timestamps_files@, c),
                file_at(values_files@, c),
                order,
            ),
{
    let ticks: Vec<i128> = dataset.time.to_pyramid_ticks();
    let mut cached: Vec<CachedLevel0> = Vec::new();
    let mut c: usize = 0;
    while c < dataset.columns.len()
        invariant
            dataset.wf(),
            ticks@ == dataset.time@.pyramid_ticks(),
            ticks@.len() == dataset.time@.len(),
            c <= dataset.columns@.len(),
            cached@.len() == c,
            forall|k: int|
                0 <= k < c ==> is_cached_level0(
                    #[trigger] cached@[k],
                    dataset.columns@[k].values_spec()@,
                    ticks@,
                    file_at(timestamps_files@, k),
                    file_at(values_files@, k),
                    order,
                ),
        decreases dataset.columns@.len() - c,
    {
        let series: &Series = &dataset.columns[c];
        assert(dataset.columns@[c as int].wf());
        let timestamps_file: Option<&[u8]> = if c < timestamps_files.len() {
            match &timestamps_files[c] {
                Some(file) => Some(file.as_slice()),
                None => None,
            }
        } else {
            None
        };
        let values_file: Option<&[u8]> = if c < values_files.len() {
            match &values_files[c] {
                Some(file) => Some(file.as_slice()),
                None => None,
            }
        } else {
            None
        };
        let one: CachedLevel0 = match series.values().to_f64_vec() {
            Some(samples) => {
                assert(samples@ == samples::promotions(series.values_spec()@));
                let (cache, to_write) = level0::build_or_open(
                    timestamps_file,
                    values_file,
                    samples.as_slice(),
                    ticks.as_slice(),
                    order,
                );
                CachedLevel0 { cache: Some(cache), to_write }
            },
            None => CachedLevel0 { cache: None, to_write: None },
        };
        cached.push(one);
        c = c + 1;
    }
    cached
}

} // verus!
