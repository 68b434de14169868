//! The cache of a pyramid: one file with the number of levels, the number of
//! buckets of each, and the buckets.

use vstd::prelude::*;
use crate::dsp::decimation;
use crate::dsp::decimation::{build_pyramid, Bucket};
use crate::index::bytes::ByteOrder;
use crate::index::header;
use crate::index::header::{push_header, read_header, FileKind, HeaderReading, HEADER_LEN};
use crate::index::level0::file_name;
use crate::index::typed;
use crate::index::typed::{push_element, read_element};

verus! {

/// How many bytes a bucket takes.
pub const BUCKET_RECORD_LEN: usize = 56;

/// The bytes of a bucket.
pub open spec fn bucket_bytes(bucket: Bucket, order: ByteOrder) -> Seq<u8> {
    typed::element_bytes(bucket.min, order) + typed::element_bytes(bucket.max, order)
        + typed::element_bytes(bucket.first_ts, order) + typed::element_bytes(
        bucket.last_ts,
        order,
    ) + typed::element_bytes(bucket.nan_count, order)
}

/// The bytes of a level.
pub open spec fn level_bytes(level: Seq<Bucket>, order: ByteOrder) -> Seq<u8>
    decreases level.len(),
{
    if level.len() == 0 {
        Seq::empty()
    } else {
        level_bytes(level.drop_last(), order) + bucket_bytes(level.last(), order)
    }
}

/// The bytes of a series of levels.
pub open spec fn levels_bytes(levels: Seq<Seq<Bucket>>, order: ByteOrder) -> Seq<u8>
    decreases levels.len(),
{
    if levels.len() == 0 {
        Seq::empty()
    } else {
        levels_bytes(levels.drop_last(), order) + level_bytes(levels.last(), order)
    }
}

/// How many buckets each level has.
pub open spec fn lengths(levels: Seq<Seq<Bucket>>) -> Seq<u64> {
    Seq::new(levels.len(), |i: int| levels[i].len() as u64)
}

/// The file of a pyramid.
pub open spec fn pyramid_file(levels: Seq<Seq<Bucket>>, order: ByteOrder) -> Seq<u8> {
    header::header_bytes(FileKind::Pyramid, levels.len(), order) + typed::run_bytes(
        lengths(levels),
        order,
    ) + levels_bytes(levels, order)
}

/// The levels have sizes that the file can tell.
pub open spec fn is_storable(levels: Seq<Seq<Bucket>>) -> bool {
    &&& levels.len() <= u32::MAX
    &&& forall|i: int| 0 <= i < levels.len() ==> (#[trigger] levels[i]).len() <= u64::MAX
}

/// The file is that of some pyramid.
pub open spec fn is_pyramid_file(file: Seq<u8>, order: ByteOrder) -> bool {
    exists|levels: Seq<Seq<Bucket>>|
        is_storable(levels) && #[trigger] pyramid_file(levels, order) == file
}

/// The levels of a pyramid as values.
pub open spec fn level_views(pyramid: Seq<Vec<Bucket>>) -> Seq<Seq<Bucket>> {
    Seq::new(pyramid.len(), |i: int| pyramid[i]@)
}

/// The sum of the first `n` lengths.
pub open spec fn total(lengths: Seq<u64>, n: int) -> int
    decreases n,
{
    if n <= 0 {
        0
    } else {
        total(lengths, n - 1) + lengths[n - 1]
    }
}

proof fn lemma_bucket_len(bucket: Bucket, order: ByteOrder)
    ensures
        bucket_bytes(bucket, order).len() == BUCKET_RECORD_LEN,
        typed::element_bytes(bucket.min, order).len() == 8,
        typed::element_bytes(bucket.max, order).len() == 8,
        typed::element_bytes(bucket.first_ts, order).len() == 16,
        typed::element_bytes(bucket.last_ts, order).len() == 16,
        typed::element_bytes(bucket.nan_count, order).len() == 8,
{
    typed::lemma_element_len(bucket.min, order);
    typed::lemma_element_len(bucket.max, order);
    typed::lemma_element_len(bucket.first_ts, order);
    typed::lemma_element_len(bucket.last_ts, order);
    typed::lemma_element_len(bucket.nan_count, order);
}

proof fn lemma_level_len(level: Seq<Bucket>, order: ByteOrder)
    ensures
        level_bytes(level, order).len() == level.len() * BUCKET_RECORD_LEN,
    decreases level.len(),
{
    if level.len() > 0 {
        lemma_bucket_len(level.last(), order);
        lemma_level_len(level.drop_last(), order);
    }
}

proof fn lemma_total_prefix(one: Seq<u64>, other: Seq<u64>, n: int)
    requires
        n <= one.len(),
        n <= other.len(),
        forall|i: int| 0 <= i < n ==> one[i] == other[i],
    ensures
        total(one, n) == total(other, n),
    decreases n,
{
    if n > 0 {
        lemma_total_prefix(one, other, n - 1);
    }
}

proof fn lemma_total_grows(lengths: Seq<u64>, n: int, m: int)
    requires
        0 <= n <= m <= lengths.len(),
    ensures
        0 <= total(lengths, n) <= total(lengths, m) <= m * u64::MAX,
        n < m ==> total(lengths, n) + lengths[n] <= total(lengths, m),
    decreases m,
{
    if n < m {
        lemma_total_grows(lengths, n, m - 1);
    } else if n > 0 {
        lemma_total_grows(lengths, n - 1, n - 1);
    }
}

proof fn lemma_levels_len(levels: Seq<Seq<Bucket>>, order: ByteOrder)
    requires
        is_storable(levels),
    ensures
        levels_bytes(levels, order).len() == total(lengths(levels), levels.len() as int)
            * BUCKET_RECORD_LEN,
    decreases levels.len(),
{
    if levels.len() > 0 {
        let before = levels.drop_last();
        lemma_levels_len(before, order);
        lemma_level_len(levels.last(), order);
        lemma_total_prefix(lengths(before), lengths(levels), before.len() as int);
    }
}

/// What the file of a pyramid says.
proof fn lemma_pyramid_file(levels: Seq<Seq<Bucket>>, order: ByteOrder)
    requires
        is_storable(levels),
    ensures
        ({
            let file = pyramid_file(levels, order);
            let n = levels.len() as int;
            &&& header::header_of(file, FileKind::Pyramid, order) == HeaderReading::Known(n as u32)
            &&& file.len() == 16 + 8 * n + total(lengths(levels), n) * BUCKET_RECORD_LEN
            &&& typed::run_elements::<u64>(file.subrange(16, 16 + 8 * n), order) == lengths(levels)
        }),
{
    let n = levels.len() as int;
    let table = typed::run_bytes(lengths(levels), order);
    let data = levels_bytes(levels, order);
    let start = header::header_bytes(FileKind::Pyramid, levels.len(), order);
    let file = pyramid_file(levels, order);
    assert(file == start + (table + data));
    header::law_header_reads_back(FileKind::Pyramid, levels.len(), order, table + data);
    typed::lemma_run_len(lengths(levels), order);
    lemma_levels_len(levels, order);
    assert(file.subrange(16, 16 + 8 * n) == table);
    typed::law_run_reads_back(lengths(levels), order);
}

/// Different pyramids have different files.
pub proof fn law_pyramid_file_is_unambiguous(
    left: Seq<Seq<Bucket>>,
    right: Seq<Seq<Bucket>>,
    order: ByteOrder,
)
    requires
        is_storable(left),
        is_storable(right),
        pyramid_file(left, order) == pyramid_file(right, order),
    ensures
        left == right,
{
    lemma_pyramid_file(left, order);
    lemma_pyramid_file(right, order);
    let n = left.len() as int;
    assert(left.len() == right.len());
    assert forall|i: int| 0 <= i < n implies (#[trigger] left[i]).len() == right[i].len() by {
        assert(lengths(left)[i] == lengths(right)[i]);
    }
    let file = pyramid_file(left, order);
    typed::lemma_run_len(lengths(left), order);
    typed::lemma_run_len(lengths(right), order);
    header::law_header_reads_back(FileKind::Pyramid, left.len(), order, Seq::empty());
    assert(file.skip(16 + 8 * n) == levels_bytes(left, order));
    assert(file.skip(16 + 8 * n) == levels_bytes(right, order));
    lemma_same_levels(left, right, order);
}

proof fn lemma_same_levels(left: Seq<Seq<Bucket>>, right: Seq<Seq<Bucket>>, order: ByteOrder)
    requires
        left.len() == right.len(),
        forall|i: int| 0 <= i < left.len() ==> (#[trigger] left[i]).len() == right[i].len(),
        levels_bytes(left, order) == levels_bytes(right, order),
    ensures
        left == right,
    decreases left.len(),
{
    if left.len() > 0 {
        let (l, r) = (level_bytes(left.last(), order), level_bytes(right.last(), order));
        lemma_level_len(left.last(), order);
        lemma_level_len(right.last(), order);
        let (lb, rb) = (
            levels_bytes(left.drop_last(), order),
            levels_bytes(right.drop_last(), order),
        );
        assert(lb == (lb + l).take(lb.len() as int));
        assert(rb == (rb + r).take(rb.len() as int));
        assert(l == (lb + l).skip(lb.len() as int));
        assert(r == (rb + r).skip(rb.len() as int));
        assert forall|i: int| 0 <= i < left.drop_last().len() implies (
        #[trigger] left.drop_last()[i]).len() == right.drop_last()[i].len() by {
            assert(left[i].len() == right[i].len());
        }
        lemma_same_levels(left.drop_last(), right.drop_last(), order);
        lemma_same_level(left.last(), right.last(), order);
        assert(left == left.drop_last().push(left.last()));
        assert(right == right.drop_last().push(right.last()));
    } else {
        assert(left == right);
    }
}

proof fn lemma_same_level(left: Seq<Bucket>, right: Seq<Bucket>, order: ByteOrder)
    requires
        left.len() == right.len(),
        level_bytes(left, order) == level_bytes(right, order),
    ensures
        left == right,
    decreases left.len(),
{
    if left.len() > 0 {
        let (l, r) = (bucket_bytes(left.last(), order), bucket_bytes(right.last(), order));
        lemma_bucket_len(left.last(), order);
        lemma_bucket_len(right.last(), order);
        let (lb, rb) = (
            level_bytes(left.drop_last(), order),
            level_bytes(right.drop_last(), order),
        );
        assert(lb == (lb + l).take(lb.len() as int));
        assert(rb == (rb + r).take(rb.len() as int));
        assert(l == (lb + l).skip(lb.len() as int));
        assert(r == (rb + r).skip(rb.len() as int));
        lemma_same_level(left.drop_last(), right.drop_last(), order);
        lemma_same_bucket(left.last(), right.last(), order);
        assert(left == left.drop_last().push(left.last()));
        assert(right == right.drop_last().push(right.last()));
    } else {
        assert(left == right);
    }
}

proof fn lemma_same_bucket(left: Bucket, right: Bucket, order: ByteOrder)
    requires
        bucket_bytes(left, order) == bucket_bytes(right, order),
    ensures
        left == right,
{
    lemma_bucket_len(left, order);
    lemma_bucket_len(right, order);
    let bytes = bucket_bytes(left, order);
    lemma_bucket_fields(left, order);
    lemma_bucket_fields(right, order);
    typed::lemma_element_reads_back(left.min, order);
    typed::lemma_element_reads_back(right.min, order);
    typed::lemma_element_reads_back(left.max, order);
    typed::lemma_element_reads_back(right.max, order);
    typed::lemma_element_reads_back(left.first_ts, order);
    typed::lemma_element_reads_back(right.first_ts, order);
    typed::lemma_element_reads_back(left.last_ts, order);
    typed::lemma_element_reads_back(right.last_ts, order);
    typed::lemma_element_reads_back(left.nan_count, order);
    typed::lemma_element_reads_back(right.nan_count, order);
}

/// Where the fields of a bucket stand in its bytes.
proof fn lemma_bucket_fields(bucket: Bucket, order: ByteOrder)
    ensures
        ({
            let bytes = bucket_bytes(bucket, order);
            &&& bytes.subrange(0, 8) == typed::element_bytes(bucket.min, order)
            &&& bytes.subrange(8, 16) == typed::element_bytes(bucket.max, order)
            &&& bytes.subrange(16, 32) == typed::element_bytes(bucket.first_ts, order)
            &&& bytes.subrange(32, 48) == typed::element_bytes(bucket.last_ts, order)
            &&& bytes.subrange(48, 56) == typed::element_bytes(bucket.nan_count, order)
        }),
{
    lemma_bucket_len(bucket, order);
    let bytes = bucket_bytes(bucket, order);
    assert(bytes.subrange(0, 8) == typed::element_bytes(bucket.min, order));
    assert(bytes.subrange(8, 16) == typed::element_bytes(bucket.max, order));
    assert(bytes.subrange(16, 32) == typed::element_bytes(bucket.first_ts, order));
    assert(bytes.subrange(32, 48) == typed::element_bytes(bucket.last_ts, order));
    assert(bytes.subrange(48, 56) == typed::element_bytes(bucket.nan_count, order));
}

/// Appends a bucket.
fn encode_bucket(out: &mut Vec<u8>, bucket: &Bucket, order: ByteOrder)
    ensures
        final(out)@ == old(out)@ + bucket_bytes(*bucket, order),
{
    push_element(out, bucket.min, order);
    push_element(out, bucket.max, order);
    push_element(out, bucket.first_ts, order);
    push_element(out, bucket.last_ts, order);
    push_element(out, bucket.nan_count, order);
    assert(out@ == old(out)@ + bucket_bytes(*bucket, order));
}

/// Reads the bucket whose bytes begin at `at`.
fn decode_bucket(file: &[u8], at: usize, order: ByteOrder) -> (bucket: Bucket)
    requires
        at + BUCKET_RECORD_LEN <= file@.len(),
    ensures
        bucket_bytes(bucket, order) == file@.subrange(at as int, at + BUCKET_RECORD_LEN),
{
    let total: usize = file.len();
    assert(at + 56 <= total);
    let bucket: Bucket = Bucket {
        min: read_element::<u64>(file, at, order),
        max: read_element::<u64>(file, at + 8, order),
        first_ts: read_element::<i128>(file, at + 16, order),
        last_ts: read_element::<i128>(file, at + 32, order),
        nan_count: read_element::<u64>(file, at + 48, order),
    };
    proof {
        let at = at as int;
        typed::lemma_element_writes_back::<u64>(file@.subrange(at, at + 8), order);
        typed::lemma_element_writes_back::<u64>(file@.subrange(at + 8, at + 16), order);
        typed::lemma_element_writes_back::<i128>(file@.subrange(at + 16, at + 32), order);
        typed::lemma_element_writes_back::<i128>(file@.subrange(at + 32, at + 48), order);
        typed::lemma_element_writes_back::<u64>(file@.subrange(at + 48, at + 56), order);
        lemma_bucket_len(bucket, order);
        lemma_bucket_fields(bucket, order);
        assert(bucket_bytes(bucket, order) == file@.subrange(at, at + BUCKET_RECORD_LEN));
    }
    bucket
}

/// The file of a pyramid.
pub fn write_cache(pyramid: &[Vec<Bucket>], order: ByteOrder) -> (file: Vec<u8>)
    requires
        pyramid@.len() <= u32::MAX,
    ensures
        file@ == pyramid_file(level_views(pyramid@), order),
        is_storable(level_views(pyramid@)),
{
    let ghost levels: Seq<Seq<Bucket>> = level_views(pyramid@);
    let mut file: Vec<u8> = Vec::new();
    push_header(&mut file, FileKind::Pyramid, pyramid.len() as u32, order);
    let ghost start: Seq<u8> = header::header_bytes(FileKind::Pyramid, levels.len(), order);
    let mut i: usize = 0;
    assert(lengths(levels).take(0) == Seq::<u64>::empty());
    assert(file@ == start + typed::run_bytes(lengths(levels).take(0), order));
    while i < pyramid.len()
        invariant
            levels == level_views(pyramid@),
            i <= pyramid@.len(),
            forall|j: int| 0 <= j < i ==> (#[trigger] levels[j]).len() <= u64::MAX,
            file@ == start + typed::run_bytes(lengths(levels).take(i as int), order),
        decreases pyramid@.len() - i,
    {
        let len: u64 = pyramid[i].len() as u64;
        push_element(&mut file, len, order);
        proof {
            let longer = lengths(levels).take(i + 1);
            assert(longer.drop_last() == lengths(levels).take(i as int));
            assert(longer.last() == len);
            assert(file@ == start + typed::run_bytes(longer, order));
        }
        i = i + 1;
    }
    assert(lengths(levels).take(levels.len() as int) == lengths(levels));
    assert(is_storable(levels));
    let ghost table: Seq<u8> = file@;
    let mut k: usize = 0;
    assert(levels.take(0) == Seq::<Seq<Bucket>>::empty());
    assert(file@ == table + levels_bytes(levels.take(0), order));
    while k < pyramid.len()
        invariant
            levels == level_views(pyramid@),
            k <= pyramid@.len(),
            file@ == table + levels_bytes(levels.take(k as int), order),
        decreases pyramid@.len() - k,
    {
        let ghost before: Seq<u8> = file@;
        let level: &Vec<Bucket> = &pyramid[k];
        let mut j: usize = 0;
        assert(level@.take(0) == Seq::<Bucket>::empty());
        assert(file@ == before + level_bytes(level@.take(0), order));
        while j < level.len()
            invariant
                j <= level@.len(),
                file@ == before + level_bytes(level@.take(j as int), order),
            decreases level@.len() - j,
        {
            encode_bucket(&mut file, &level[j], order);
            proof {
                let longer = level@.take(j + 1);
                assert(longer.drop_last() == level@.take(j as int));
                assert(file@ == before + level_bytes(longer, order));
            }
            j = j + 1;
        }
        proof {
            assert(level@.take(level@.len() as int) == level@);
            let longer = levels.take(k + 1);
            assert(longer.drop_last() == levels.take(k as int));
            assert(longer.last() == level@);
            assert(file@ == table + levels_bytes(longer, order));
        }
        k = k + 1;
    }
    assert(levels.take(levels.len() as int) == levels);
    file
}

/// Reads the bucket counts of the levels.
fn read_lengths(file: &[u8], count: usize, order: ByteOrder) -> (counts: Vec<u64>)
    requires
        16 + 8 * count <= file@.len(),
    ensures
        counts@ == typed::run_elements::<u64>(file@.subrange(16, 16 + 8 * count), order),
        counts@.len() == count,
{
    let total: usize = file.len();
    let ghost table: Seq<u8> = file@.subrange(16, 16 + 8 * count);
    let mut counts: Vec<u64> = Vec::new();
    let mut i: usize = 0;
    while i < count
        invariant
            total == file@.len(),
            16 + 8 * count <= total,
            table == file@.subrange(16, 16 + 8 * count),
            i <= count,
            counts@.len() == i,
            forall|j: int|
                0 <= j < i ==> #[trigger] counts@[j] == typed::element_at::<u64>(table, j, order),
        decreases count - i,
    {
        let at: usize = HEADER_LEN + 8 * i;
        assert(table.subrange(i * 8, (i + 1) * 8) == file@.subrange(at as int, at + 8));
        counts.push(read_element::<u64>(file, at, order));
        i = i + 1;
    }
    assert(counts@ == typed::run_elements::<u64>(table, order));
    counts
}

/// Reads one level of `count` buckets from `at` on.
fn read_level(file: &[u8], at: usize, count: u64, order: ByteOrder) -> (level: Vec<Bucket>)
    requires
        at + count * BUCKET_RECORD_LEN <= file@.len(),
    ensures
        level@.len() == count,
        level_bytes(level@, order) == file@.subrange(
            at as int,
            at + count * BUCKET_RECORD_LEN,
        ),
{
    let total: usize = file.len();
    let mut level: Vec<Bucket> = Vec::new();
    let mut i: u64 = 0;
    let mut place: usize = at;
    assert(file@.subrange(at as int, at as int) == level_bytes(level@, order));
    while i < count
        invariant
            total == file@.len(),
            at + count * BUCKET_RECORD_LEN <= total,
            i <= count,
            place == at + i * BUCKET_RECORD_LEN,
            level@.len() == i,
            level_bytes(level@, order) == file@.subrange(at as int, place as int),
        decreases count - i,
    {
        let ghost before: Seq<Bucket> = level@;
        let bucket: Bucket = decode_bucket(file, place, order);
        level.push(bucket);
        proof {
            assert(level@.drop_last() == before);
            assert(level_bytes(level@, order) == file@.subrange(at as int, place + 56));
        }
        place = place + BUCKET_RECORD_LEN;
        i = i + 1;
    }
    level
}

/// The counts that a file states, those of `count` levels.
pub open spec fn stated_counts(file: Seq<u8>, count: int, order: ByteOrder) -> Seq<u64> {
    typed::run_elements::<u64>(file.subrange(16, 16 + 8 * count), order)
}

/// The file has the header of a pyramid, and its size is what the counts that
/// it states make.
spec fn has_pyramid_shape(file: Seq<u8>, order: ByteOrder) -> bool {
    match header::header_of(file, FileKind::Pyramid, order) {
        HeaderReading::Known(count) => {
            &&& 16 + 8 * count <= file.len()
            &&& file.len() == 16 + 8 * count + total(
                stated_counts(file, count as int, order),
                count as int,
            ) * BUCKET_RECORD_LEN
        },
        _ => false,
    }
}

/// The file of a pyramid has that shape.
proof fn lemma_pyramid_shape(file: Seq<u8>, order: ByteOrder)
    ensures
        is_pyramid_file(file, order) ==> has_pyramid_shape(file, order),
{
    if is_pyramid_file(file, order) {
        let levels = choose|levels: Seq<Seq<Bucket>>|
            is_storable(levels) && #[trigger] pyramid_file(levels, order) == file;
        lemma_pyramid_file(levels, order);
        lemma_total_grows(lengths(levels), 0, levels.len() as int);
    }
}

/// Levels that account for all bytes behind the counts make up the file.
proof fn lemma_levels_make_file(
    file: Seq<u8>,
    levels: Seq<Seq<Bucket>>,
    order: ByteOrder,
)
    requires
        header::header_of(file, FileKind::Pyramid, order) == HeaderReading::Known(
            levels.len() as u32,
        ),
        levels.len() <= u32::MAX,
        16 + 8 * levels.len() <= file.len(),
        lengths(levels) == stated_counts(file, levels.len() as int, order),
        levels_bytes(levels, order) == file.skip(16 + 8 * levels.len() as int),
    ensures
        pyramid_file(levels, order) == file,
{
    let table_end = 16 + 8 * levels.len() as int;
    let table = file.subrange(16, table_end);
    typed::law_run_writes_back::<u64>(table, order);
    header::law_known_header_writes_back(file, FileKind::Pyramid, order);
    assert(file.skip(16) == table + file.skip(table_end));
    assert(pyramid_file(levels, order) == file);
}

/// The sum of the counts.
fn sum_counts(counts: &[u64]) -> (sum: u128)
    requires
        counts@.len() <= u32::MAX,
    ensures
        sum == total(counts@, counts@.len() as int),
        sum < 0x1_0000_0000_0000_0000_0000_0000,
{
    let mut sum: u128 = 0;
    let mut i: usize = 0;
    while i < counts.len()
        invariant
            counts@.len() <= u32::MAX,
            i <= counts@.len(),
            sum == total(counts@, i as int),
            sum <= i * 0xffff_ffff_ffff_ffff,
        decreases counts@.len() - i,
    {
        sum = sum + counts[i] as u128;
        i = i + 1;
    }
    sum
}

/// Reads levels of the given sizes from `start` to the end of the file.
fn read_levels(file: &[u8], start: usize, counts: &[u64], order: ByteOrder) -> (levels: Vec<
    Vec<Bucket>,
>)
    requires
        file@.len() == start + total(counts@, counts@.len() as int) * BUCKET_RECORD_LEN,
    ensures
        lengths(level_views(levels@)) == counts@,
        levels_bytes(level_views(levels@), order) == file@.skip(start as int),
        forall|i: int| 0 <= i < levels@.len() ==> (#[trigger] levels@[i])@.len() <= u64::MAX,
{
    let size: usize = file.len();
    let count: usize = counts.len();
    let mut levels: Vec<Vec<Bucket>> = Vec::new();
    let mut k: usize = 0;
    let mut at: usize = start;
    proof {
        lemma_total_grows(counts@, 0, count as int);
        assert(level_views(levels@) == Seq::<Seq<Bucket>>::empty());
        assert(file@.subrange(start as int, start as int) == levels_bytes(
            level_views(levels@),
            order,
        ));
    }
    while k < count
        invariant
            size == file@.len(),
            count == counts@.len(),
            k <= count,
            size == start + total(counts@, count as int) * BUCKET_RECORD_LEN,
            at == start + total(counts@, k as int) * BUCKET_RECORD_LEN,
            start <= at <= size,
            levels@.len() == k,
            forall|j: int| 0 <= j < k ==> (#[trigger] levels@[j])@.len() == counts@[j],
            levels_bytes(level_views(levels@), order) == file@.subrange(start as int, at as int),
        decreases count - k,
    {
        let ghost before: Seq<Vec<Bucket>> = levels@;
        let len: u64 = counts[k];
        proof {
            lemma_total_grows(counts@, k as int, count as int);
            lemma_total_grows(counts@, k + 1, count as int);
            lemma_total_grows(counts@, 0, k as int);
        }
        let level: Vec<Bucket> = read_level(file, at, len, order);
        let next: usize = at + len as usize * BUCKET_RECORD_LEN;
        levels.push(level);
        proof {
            assert(level_views(levels@).drop_last() == level_views(before));
            assert(level_views(levels@).last() == level@);
            assert(file@.subrange(start as int, at as int) + file@.subrange(
                at as int,
                next as int,
            ) == file@.subrange(start as int, next as int));
        }
        at = next;
        k = k + 1;
    }
    proof {
        assert(lengths(level_views(levels@)) == counts@);
        assert(file@.subrange(start as int, size as int) == file@.skip(start as int));
    }
    levels
}

/// Reads the file of a pyramid. No count that the file states is trusted
/// before it has been held against the file's size. A file that is not that of
/// a pyramid is no error: there just is no cache.
pub fn try_open(file: &[u8], order: ByteOrder) -> (pyramid: Option<Vec<Vec<Bucket>>>)
    ensures
        match pyramid {
            Some(pyramid) => {
                &&& is_storable(level_views(pyramid@))
                &&& pyramid_file(level_views(pyramid@), order) == file@
            },
            None => !is_pyramid_file(file@, order),
        },
{
    proof {
        lemma_pyramid_shape(file@, order);
    }
    let stated: u32 = match read_header(file, FileKind::Pyramid, order) {
        HeaderReading::Known(stated) => stated,
        _ => {
            return None;
        },
    };
    let size: usize = file.len();
    if stated as u128 * 8 + HEADER_LEN as u128 > size as u128 {
        return None;
    }
    let count: usize = stated as usize;
    let counts: Vec<u64> = read_lengths(file, count, order);
    let sum: u128 = sum_counts(counts.as_slice());
    assert(sum * 56 < 0x38_0000_0000_0000_0000_0000_0000);
    if HEADER_LEN as u128 + 8 * count as u128 + sum * BUCKET_RECORD_LEN as u128 != size as u128 {
        return None;
    }
    let levels: Vec<Vec<Bucket>> = read_levels(
        file,
        HEADER_LEN + 8 * count,
        counts.as_slice(),
        order,
    );
    proof {
        assert(lengths(level_views(levels@)).len() == levels@.len());
        lemma_levels_make_file(file@, level_views(levels@), order);
    }
    Some(levels)
}

/// A pyramid has few levels: each covers eight times the samples of the one
/// below.
proof fn lemma_few_levels(pyramid: Seq<Vec<Bucket>>, samples: Seq<u64>, timestamps: Seq<i128>)
    requires
        decimation::is_pyramid(pyramid, samples, timestamps),
        samples.len() <= 0xffff_ffff_ffff_ffff,
    ensures
        pyramid.len() <= 100,
{
    if pyramid.len() > 100 {
        let level = pyramid[64]@;
        assert(level.len() >= 8);
        reveal_with_fuel(decimation::level_span, 65);
        let span = decimation::level_span(64) as int;
        assert(span > 0xffff_ffff_ffff_ffff);
        assert(decimation::is_level(level, samples, timestamps, span));
        assert((level.len() - 1) * span >= span) by (nonlinear_arith)
            requires
                level.len() >= 8,
                span > 0,
        ;
    }
}

/// The pyramid over the samples, and its file.
pub fn build(samples: &[u64], timestamps: &[i128], order: ByteOrder) -> (built: (
    Vec<Vec<Bucket>>,
    Vec<u8>,
))
    requires
        samples@.len() == timestamps@.len(),
    ensures
        decimation::is_pyramid(built.0@, samples@, timestamps@),
        built.1@ == pyramid_file(level_views(built.0@), order),
        is_storable(level_views(built.0@)),
{
    let count: usize = samples.len();
    let pyramid: Vec<Vec<Bucket>> = build_pyramid(samples, timestamps);
    proof {
        assert(samples@.len() == count);
        lemma_few_levels(pyramid@, samples@, timestamps@);
    }
    let file: Vec<u8> = write_cache(pyramid.as_slice(), order);
    (pyramid, file)
}

/// The pyramid of the cache file, where there is a usable one; else the
/// pyramid over the samples, with the file that is then to be written.
pub fn build_or_open(
    cached: Option<&[u8]>,
    samples: &[u64],
    timestamps: &[i128],
    order: ByteOrder,
) -> (opened: (Vec<Vec<Bucket>>, Option<Vec<u8>>))
    requires
        samples@.len() == timestamps@.len(),
    ensures
        is_storable(level_views(opened.0@)),
        match cached {
            Some(file) if is_pyramid_file(file@, order) => opened.1 is None && pyramid_file(
                level_views(opened.0@),
                order,
            ) == file@,
            _ => {
                &&& decimation::is_pyramid(opened.0@, samples@, timestamps@)
                &&& opened.1 matches Some(file)
                &&& file@ == pyramid_file(level_views(opened.0@), order)
            },
        },
{
    match cached {
        Some(file) => match try_open(file, order) {
            Some(pyramid) => {
                return (pyramid, None);
            },
            None => {},
        },
        None => {},
    }
    let (pyramid, file) = build(samples, timestamps, order);
    (pyramid, Some(file))
}

/// The name of the cache file of a stem.
pub fn pyramid_file_name(stem: &str) -> (name: String)
    ensures
        name@ == stem@ + ".pyramid.glypy"@,
{
    file_name(stem, ".pyramid.glypy")
}

} // verus!
