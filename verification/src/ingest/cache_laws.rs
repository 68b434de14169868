//! When the cache of a column is used, and when it is made anew.

use vstd::prelude::*;
use crate::dsp::decimation;
use crate::dsp::decimation::Bucket;
use crate::index::bytes::ByteOrder;
use crate::index::level0;
use crate::index::pyramid;
use crate::index::pyramid::law_pyramid_file_is_unambiguous;
use crate::ingest::cached;
use crate::ingest::cached::{CachedLevel0, CachedPyramid};
use crate::ingest::dataset;
use crate::ingest::dataset::Table;
use crate::series::dtype::{Dtype, Samples};
use crate::series::samples;

verus! {

/// Samples that are numbers.
pub open spec fn are_numbers(values: Samples) -> bool {
    values.dtype() != Dtype::Bool && values.dtype() != Dtype::String
}

/// A column of numbers has a pyramid, a column of flags or of text has none.
pub proof fn law_columns_of_numbers_have_pyramids(
    cached: CachedPyramid,
    values: Samples,
    ticks: Seq<i128>,
    file: Option<Seq<u8>>,
    order: ByteOrder,
)
    requires
        cached::is_cached_pyramid(cached, values, ticks, file, order),
    ensures
        cached.pyramid is Some <==> are_numbers(values),
        !are_numbers(values) ==> cached.to_write is None,
{
}

/// Without a whole file, the pyramid is built from the samples, and the file to
/// write holds exactly that pyramid.
pub proof fn law_damaged_pyramids_are_built_anew(
    cached: CachedPyramid,
    values: Samples,
    ticks: Seq<i128>,
    file: Option<Seq<u8>>,
    order: ByteOrder,
)
    requires
        cached::is_cached_pyramid(cached, values, ticks, file, order),
        are_numbers(values),
        file matches Some(bytes) ==> !pyramid::is_pyramid_file(bytes, order),
    ensures
        cached.pyramid matches Some(levels) && cached.to_write matches Some(written) && {
            &&& decimation::is_pyramid(levels@, samples::promotions(values), ticks)
            &&& written@ == pyramid::pyramid_file(pyramid::level_views(levels@), order)
        },
{
}

/// A pyramid that was written is the pyramid that is read, and nothing is written
/// again.
pub proof fn law_written_pyramids_are_used(
    cached: CachedPyramid,
    values: Samples,
    ticks: Seq<i128>,
    stored: Seq<Seq<Bucket>>,
    order: ByteOrder,
)
    requires
        cached::is_cached_pyramid(
            cached,
            values,
            ticks,
            Some(pyramid::pyramid_file(stored, order)),
            order,
        ),
        are_numbers(values),
        pyramid::is_storable(stored),
        cached.pyramid matches Some(levels) ==> pyramid::is_storable(pyramid::level_views(levels@)),
    ensures
        cached.to_write is None,
        cached.pyramid matches Some(levels) && pyramid::level_views(levels@) == stored,
{
    let file = pyramid::pyramid_file(stored, order);
    assert(pyramid::is_pyramid_file(file, order));
    let levels = cached.pyramid->0;
    law_pyramid_file_is_unambiguous(pyramid::level_views(levels@), stored, order);
}

/// Samples that were written are those that are read, and nothing is written again.
/// Without two whole files of the same length they are taken from the column, and
/// the files to write hold exactly them.
pub proof fn law_written_samples_are_used(
    cached: CachedLevel0,
    values: Samples,
    ticks: Seq<i128>,
    timestamps: Option<Seq<u8>>,
    numbers: Option<Seq<u8>>,
    order: ByteOrder,
)
    requires
        cached::is_cached_level0(cached, values, ticks, timestamps, numbers, order),
    ensures
        cached.cache is Some <==> are_numbers(values),
        are_numbers(values) ==> match level0::level0_contents(timestamps, numbers, order) {
            Some(contents) => cached.to_write is None && cached.cache->0@ == contents,
            None => {
                &&& cached.cache->0@ == (ticks, samples::promotions(values))
                &&& cached.to_write matches Some(files)
                &&& files.timestamps@ == level0::level0_file(ticks, order)
                &&& files.values@ == level0::level0_file(samples::promotions(values), order)
            },
        },
{
}

/// A table has a pyramid for each of its columns of numbers, made of the column's
/// own samples and of the ticks of the axis.
pub proof fn law_tables_have_the_pyramids_of_their_columns(
    pyramids: Seq<Option<Vec<Vec<Bucket>>>>,
    table: Table,
    c: int,
)
    requires
        dataset::are_pyramids_of(pyramids, table),
        0 <= c < table.columns.len(),
    ensures
        pyramids.len() == table.columns.len(),
        pyramids[c] is Some <==> are_numbers(table.columns[c].samples),
        pyramids[c] matches Some(levels) ==> decimation::is_pyramid(
            levels@,
            samples::promotions(table.columns[c].samples),
            table.time.pyramid_ticks(),
        ),
{
    assert(dataset::is_pyramid_of_column(
        pyramids[c],
        table.columns[c].samples,
        table.time.pyramid_ticks(),
    ));
}

} // verus!
