//! Which byte of a cache file stands where.

use vstd::prelude::*;
use crate::dsp::decimation::Bucket;
use crate::index::bytes;
use crate::index::bytes::ByteOrder;
use crate::index::header;
use crate::index::header::FileKind;
use crate::index::level0;
use crate::index::pyramid;
use crate::index::spill;
use crate::index::typed;
use crate::index::typed::Element;

verus! {

proof fn lemma_low_byte(v: nat, n: nat, i: int)
    requires
        0 <= i < n,
    ensures
        bytes::low_bytes(v, n).len() == n,
        bytes::low_bytes(v, n)[i] == (v / bytes::pow256(i as nat)) % 256,
    decreases n,
{
    let rest = bytes::low_bytes(v / 256, (n - 1) as nat);
    let s = bytes::low_bytes(v, n);
    if n > 1 {
        lemma_low_byte(v / 256, (n - 1) as nat, if i > 0 {
            i - 1
        } else {
            0
        });
    } else {
        assert(bytes::low_bytes(v / 256, 0).len() == 0);
    }
    if i == 0 {
        assert(s[0] == (v % 256) as u8);
        assert(v / 1 == v);
    } else {
        assert(s[i] == rest[i - 1]);
        let p = bytes::pow256((i - 1) as nat) as int;
        bytes::lemma_pow256((i - 1) as nat);
        let w = v as int;
        assert(w / (256 * p) == (w / 256) / p) by {
            vstd::arithmetic::div_mod::lemma_div_denominator(w, 256, p);
        }
    }
}

/// In one order the byte of the lowest value comes first, in the other it comes
/// last.
pub proof fn law_bytes_stand_by_their_value(v: nat, n: nat, i: int)
    requires
        0 <= i < n,
    ensures
        bytes::encoded(v, n, ByteOrder::Little).len() == n,
        bytes::encoded(v, n, ByteOrder::Big).len() == n,
        bytes::encoded(v, n, ByteOrder::Little)[i] == (v / bytes::pow256(i as nat)) % 256,
        bytes::encoded(v, n, ByteOrder::Big)[n - 1 - i] == (v / bytes::pow256(i as nat)) % 256,
        bytes::pow256(0) == 1,
        bytes::pow256(n) == 256 * bytes::pow256((n - 1) as nat),
{
    lemma_low_byte(v, n, i);
}

/// Negative integers are written as what they lack to the next power of two.
pub proof fn law_elements_are_written_in_full(a: u8, b: u64, c: i64, d: i128)
    ensures
        <u8 as Element>::width() == 1,
        <u64 as Element>::width() == 8,
        <i64 as Element>::width() == 8,
        <i128 as Element>::width() == 16,
        a.raw() == a,
        b.raw() == b,
        c.raw() == (if c >= 0 {
            c as int
        } else {
            c + 0x1_0000_0000_0000_0000
        }),
        d.raw() == (if d >= 0 {
            d as int
        } else {
            d + 0x1_0000_0000_0000_0000_0000_0000_0000_0000
        }),
{
}

/// The elements of a run stand one behind the other, each in its own width.
pub proof fn law_elements_stand_one_behind_the_other<T: Element>(
    elements: Seq<T>,
    order: ByteOrder,
    i: int,
)
    requires
        0 <= i < elements.len(),
    ensures
        typed::run_bytes(elements, order).len() == elements.len() * T::width(),
        0 <= i * T::width(),
        (i + 1) * T::width() <= typed::run_bytes(elements, order).len(),
        typed::run_bytes(elements, order).subrange(i * T::width(), (i + 1) * T::width())
            == bytes::encoded(elements[i].raw(), T::width(), order),
    decreases elements.len(),
{
    let w = T::width() as int;
    let n = elements.len() as int;
    let before = elements.drop_last();
    let last = elements.last();
    last.lemma_raw(0);
    bytes::law_bytes_read_back(last.raw(), T::width(), order);
    let run = typed::run_bytes(elements, order);
    let shorter = typed::run_bytes(before, order);
    assert(n * w == (n - 1) * w + w) by (nonlinear_arith);
    assert(0 <= i * w && (i + 1) * w <= n * w) by (nonlinear_arith)
        requires
            0 <= i < n,
            w > 0,
    ;
    assert((i + 1) * w == i * w + w) by (nonlinear_arith);
    if n == 1 {
        assert(shorter.len() == 0);
        assert(i == 0);
        assert(0 * w == 0);
        assert((0 + 1) * w == w);
        assert(run.subrange(0, w) =~= bytes::encoded(last.raw(), T::width(), order));
    } else if i < n - 1 {
        law_elements_stand_one_behind_the_other(before, order, i);
        assert((i + 1) * w <= (n - 1) * w) by (nonlinear_arith)
            requires
                i + 1 <= n - 1,
                w > 0,
        ;
        assert(before.len() == n - 1);
        assert(shorter.len() == (n - 1) * w);
        assert(before[i] == elements[i]);
        assert(run.subrange(i * w, (i + 1) * w) =~= shorter.subrange(i * w, (i + 1) * w));
    } else {
        law_elements_stand_one_behind_the_other(before, order, 0);
        assert(run.subrange(i * w, (i + 1) * w) =~= bytes::encoded(
            last.raw(),
            T::width(),
            order,
        ));
    }
}

/// A file begins with eight bytes that say of what kind it is, and with the number
/// of the format, which is one.
pub proof fn law_files_begin_with_their_kind(kind: FileKind, extra: nat, order: ByteOrder)
    requires
        extra <= u32::MAX,
    ensures
        ({
            let start = header::header_bytes(kind, extra, order);
            &&& start.len() == 16
            &&& start.take(5) == seq![
                'G' as u8,
                'L' as u8,
                'Y' as u8,
                'D' as u8,
                'E' as u8,
            ]
            &&& kind is Spill ==> start.subrange(5, 8) == seq!['S' as u8, 'P' as u8, 0u8]
            &&& kind is Level0 ==> start.subrange(5, 8) == seq!['C' as u8, '0' as u8, 0u8]
            &&& kind is Pyramid ==> start.subrange(5, 8) == seq!['P' as u8, 'Y' as u8, 'R' as u8]
            &&& start.subrange(8, 12) == bytes::encoded(1, 4, order)
            &&& start.subrange(12, 16) == bytes::encoded(extra, 4, order)
        }),
{
    bytes::lemma_pow256(4);
    bytes::law_bytes_read_back(1, 4, order);
    bytes::law_bytes_read_back(extra, 4, order);
    let start = header::header_bytes(kind, extra, order);
    assert(kind.magic().len() == 8);
    assert(start.take(5) =~= seq!['G' as u8, 'L' as u8, 'Y' as u8, 'D' as u8, 'E' as u8]);
    assert(kind is Spill ==> start.subrange(5, 8) =~= seq!['S' as u8, 'P' as u8, 0u8]);
    assert(kind is Level0 ==> start.subrange(5, 8) =~= seq!['C' as u8, '0' as u8, 0u8]);
    assert(kind is Pyramid ==> start.subrange(5, 8) =~= seq!['P' as u8, 'Y' as u8, 'R' as u8]);
    assert(start.subrange(8, 12) =~= bytes::encoded(1, 4, order));
    assert(start.subrange(12, 16) =~= bytes::encoded(extra, 4, order));
}

/// A header is refused if it is cut off, of another kind, or of another version of
/// the format, and in no other case.
pub proof fn law_headers_are_refused_for_three_reasons(
    file: Seq<u8>,
    kind: FileKind,
    order: ByteOrder,
)
    ensures
        header::header_of(file, kind, order) is Short <==> file.len() < 16,
        header::header_of(file, kind, order) is Foreign <==> file.len() >= 16 && file.take(8)
            != header::header_bytes(kind, 0, order).take(8),
        header::header_of(file, kind, order) is OtherVersion <==> file.len() >= 16 && file.take(8)
            == header::header_bytes(kind, 0, order).take(8) && file.subrange(8, 12)
            != bytes::encoded(1, 4, order),
{
    assert(kind.magic().len() == 8);
    bytes::lemma_pow256(4);
    bytes::law_bytes_read_back(1, 4, order);
    bytes::law_bytes_read_back(0, 4, order);
    assert(header::header_bytes(kind, 0, order).take(8) =~= kind.magic());
    if file.len() >= 16 {
        bytes::law_bytes_write_back(file.subrange(8, 12), order);
    }
}

/// The two files of a column's samples: a header of sixteen bytes, and then the
/// ticks in the one and the values in the other.
pub proof fn law_sample_files_are_a_header_and_a_run<T: Element>(
    elements: Seq<T>,
    order: ByteOrder,
)
    ensures
        level0::level0_file(elements, order).take(16) == header::header_bytes(
            FileKind::Level0,
            0,
            order,
        ),
        level0::level0_file(elements, order).skip(16) == typed::run_bytes(elements, order),
        spill::spill_file(elements, order).take(16) == header::header_bytes(
            FileKind::Spill,
            T::width(),
            order,
        ),
        spill::spill_file(elements, order).skip(16) == typed::run_bytes(elements, order),
{
    lemma_header_len(FileKind::Level0, 0, order);
    if elements.len() > 0 {
        elements[0].lemma_raw(0);
    }
    let some: T = T::of_raw(0);
    some.lemma_raw(0);
    lemma_header_len(FileKind::Spill, T::width(), order);
    let run = typed::run_bytes(elements, order);
    assert(level0::level0_file(elements, order).take(16) =~= header::header_bytes(
        FileKind::Level0,
        0,
        order,
    ));
    assert(level0::level0_file(elements, order).skip(16) =~= run);
    assert(spill::spill_file(elements, order).take(16) =~= header::header_bytes(
        FileKind::Spill,
        T::width(),
        order,
    ));
    assert(spill::spill_file(elements, order).skip(16) =~= run);
}

proof fn lemma_header_len(kind: FileKind, extra: nat, order: ByteOrder)
    requires
        extra <= u32::MAX,
    ensures
        header::header_bytes(kind, extra, order).len() == 16,
{
    law_files_begin_with_their_kind(kind, extra, order);
}

/// A file with the header of its kind and with these elements behind it.
pub open spec fn is_sample_file<T: Element>(
    file: Seq<u8>,
    elements: Seq<T>,
    order: ByteOrder,
) -> bool {
    &&& header::header_of(file, FileKind::Level0, order) is Known
    &&& file.skip(16) == typed::run_bytes(elements, order)
}

/// Cached samples are used only if both files are there, both are whole, and both
/// hold as many elements.
pub proof fn law_samples_of_unequal_files_are_not_used(
    ticks: Seq<i128>,
    samples: Seq<u64>,
    order: ByteOrder,
    timestamps: Option<Seq<u8>>,
    values: Option<Seq<u8>>,
)
    ensures
        ticks.len() != samples.len() ==> level0::level0_contents(
            Some(level0::level0_file(ticks, order)),
            Some(level0::level0_file(samples, order)),
            order,
        ) is None,
        level0::level0_contents(None, values, order) is None,
        level0::level0_contents(timestamps, None, order) is None,
        level0::level0_contents(timestamps, values, order) matches Some((found, read)) ==> {
            &&& found.len() == read.len()
            &&& timestamps matches Some(file) && is_sample_file(file, found, order)
            &&& values matches Some(file) && is_sample_file(file, read, order)
        },
{
    lemma_sample_file_reads_back(ticks, order);
    lemma_sample_file_reads_back(samples, order);
    if level0::level0_contents(timestamps, values, order) is Some {
        lemma_sample_file_writes_back::<i128>(timestamps->0, order);
        lemma_sample_file_writes_back::<u64>(values->0, order);
    }
}

proof fn lemma_sample_file_reads_back<T: Element>(elements: Seq<T>, order: ByteOrder)
    ensures
        level0::level0_elements::<T>(level0::level0_file(elements, order), order) == Some(elements),
{
    let file = level0::level0_file(elements, order);
    let some: T = T::of_raw(0);
    some.lemma_raw(0);
    header::law_header_reads_back(
        FileKind::Level0,
        0,
        order,
        typed::run_bytes(elements, order),
    );
    typed::law_run_reads_back(elements, order);
    let w = T::width() as int;
    let n = elements.len() as int;
    if n > 0 {
        law_elements_stand_one_behind_the_other(elements, order, 0);
    } else {
        assert(typed::run_bytes(elements, order).len() == 0);
        assert(0 * w == 0);
    }
    assert((n * w) % w == 0) by (nonlinear_arith)
        requires
            w > 0,
    ;
}

proof fn lemma_sample_file_writes_back<T: Element>(file: Seq<u8>, order: ByteOrder)
    requires
        level0::level0_elements::<T>(file, order) is Some,
    ensures
        is_sample_file(file, level0::level0_elements::<T>(file, order)->0, order),
{
    typed::law_run_writes_back::<T>(file.skip(16), order);
}

/// The record of a bucket: its smallest and largest value, its first and last
/// tick, and its count of missing samples, in this order.
pub proof fn law_bucket_record(bucket: Bucket, order: ByteOrder)
    ensures
        ({
            let record = pyramid::bucket_bytes(bucket, order);
            &&& record.len() == 56
            &&& record.subrange(0, 8) == bytes::encoded(bucket.min.raw(), 8, order)
            &&& record.subrange(8, 16) == bytes::encoded(bucket.max.raw(), 8, order)
            &&& record.subrange(16, 32) == bytes::encoded(bucket.first_ts.raw(), 16, order)
            &&& record.subrange(32, 48) == bytes::encoded(bucket.last_ts.raw(), 16, order)
            &&& record.subrange(48, 56) == bytes::encoded(bucket.nan_count.raw(), 8, order)
        }),
{
    bytes::lemma_pow256(8);
    bytes::lemma_pow256(16);
    bucket.min.lemma_raw(0);
    bucket.max.lemma_raw(0);
    bucket.first_ts.lemma_raw(0);
    bucket.last_ts.lemma_raw(0);
    bucket.nan_count.lemma_raw(0);
    bytes::law_bytes_read_back(bucket.min.raw(), 8, order);
    bytes::law_bytes_read_back(bucket.max.raw(), 8, order);
    bytes::law_bytes_read_back(bucket.first_ts.raw(), 16, order);
    bytes::law_bytes_read_back(bucket.last_ts.raw(), 16, order);
    bytes::law_bytes_read_back(bucket.nan_count.raw(), 8, order);
    let record = pyramid::bucket_bytes(bucket, order);
    assert(record.subrange(0, 8) =~= bytes::encoded(bucket.min.raw(), 8, order));
    assert(record.subrange(8, 16) =~= bytes::encoded(bucket.max.raw(), 8, order));
    assert(record.subrange(16, 32) =~= bytes::encoded(bucket.first_ts.raw(), 16, order));
    assert(record.subrange(32, 48) =~= bytes::encoded(bucket.last_ts.raw(), 16, order));
    assert(record.subrange(48, 56) =~= bytes::encoded(bucket.nan_count.raw(), 8, order));
}

/// Sixteen to a power.
pub open spec fn pow16(n: nat) -> nat
    decreases n,
{
    if n == 0 {
        1
    } else {
        16 * pow16((n - 1) as nat)
    }
}

/// Hexadecimal digits stand with the highest first, and letters are small.
pub proof fn law_hexadecimal_digits(n: nat, width: nat, i: int)
    requires
        0 <= i < width,
    ensures
        level0::hex_digits(n, width).len() == width,
        level0::hex_digits(n, width)[width - 1 - i] == seq![
            '0',
            '1',
            '2',
            '3',
            '4',
            '5',
            '6',
            '7',
            '8',
            '9',
            'a',
            'b',
            'c',
            'd',
            'e',
            'f',
        ][(n / pow16(i as nat)) as int % 16],
    decreases width,
{
    let rest = level0::hex_digits(n / 16, (width - 1) as nat);
    if width > 1 {
        law_hexadecimal_digits(
            n / 16,
            (width - 1) as nat,
            if i > 0 {
                i - 1
            } else {
                0
            },
        );
    } else {
        assert(level0::hex_digits(n / 16, 0).len() == 0);
    }
    if i == 0 {
        assert(n / 1 == n);
    } else {
        let p = pow16((i - 1) as nat) as int;
        lemma_pow16((i - 1) as nat);
        let w = n as int;
        assert(w / (16 * p) == (w / 16) / p) by {
            vstd::arithmetic::div_mod::lemma_div_denominator(w, 16, p);
        }
    }
}

proof fn lemma_pow16(n: nat)
    ensures
        pow16(n) > 0,
    decreases n,
{
    if n > 0 {
        lemma_pow16((n - 1) as nat);
    }
}

} // verus!
