//! The cache of a column's ticks and samples: two files beside each other, so
//! that a file that was opened before need not be parsed again.

use vstd::prelude::*;
use std::hash::Hash;
use std::hash::Hasher;
use crate::index::bytes::ByteOrder;
use crate::index::header;
use crate::index::header::{push_header, read_header, FileKind, HeaderReading, HEADER_LEN};
use crate::index::typed;
use crate::index::typed::{push_element, read_element, Element};
use crate::text::{push_text, string_of};

verus! {

/// What a cached file is known by. As soon as one of these changes, the cache
/// of the old contents is no longer found.
#[derive(Debug, Clone, PartialEq, Eq, Hash)]
pub struct CacheKey {
    pub source_path: String,
    pub source_size: u64,
    pub source_mtime_unix_nanos: i128,
    /// A hash of the corrections that the file was read under, zero where
    /// there are none.
    pub overrides_signature: u64,
}

impl CacheKey {
    /// The key of a file of the given size. The time of its last change is so
    /// many nanoseconds after the Unix epoch, or before it.
    pub fn for_source(
        source_path: &str,
        source_size: u64,
        modified: core::result::Result<u128, u128>,
    ) -> (key: CacheKey)
        requires
            modified matches Ok(after) ==> after <= i128::MAX,
            modified matches Err(before) ==> before <= i128::MAX,
        ensures
            key.source_path@ == source_path@,
            key.source_size == source_size,
            key.source_mtime_unix_nanos == (match modified {
                Ok(after) => after as int,
                Err(before) => -(before as int),
            }),
            key.overrides_signature == 0,
    {
        CacheKey {
            source_path: source_path.to_owned(),
            source_size,
            source_mtime_unix_nanos: match modified {
                Ok(after) => after as i128,
                Err(before) => -(before as i128),
            },
            overrides_signature: 0,
        }
    }

    /// The same key for the file read under corrections.
    pub fn with_overrides_signature(self, signature: u64) -> (key: CacheKey)
        ensures
            key == (CacheKey { overrides_signature: signature, ..self }),
    {
        CacheKey {
            source_path: self.source_path,
            source_size: self.source_size,
            source_mtime_unix_nanos: self.source_mtime_unix_nanos,
            overrides_signature: signature,
        }
    }

    /// The name that the cache files of this key begin with: sixteen
    /// hexadecimal digits. Which digits they are is up to the hash, of which
    /// nothing is known here but that it is a hash of the key.
    pub fn cache_stem(&self) -> (stem: String)
        ensures
            exists|hash: u64| stem@ == hex_digits(hash as nat, 16),
    {
        stem_of_hash(hash_of_key(self))
    }
}

/// Hashes a key by `std::collections::hash_map::DefaultHasher`. Its algorithm
/// is not specified, so nothing is claimed of the result.
#[verifier::external_body]
fn hash_of_key(key: &CacheKey) -> (hash: u64) {
    let mut hasher = std::collections::hash_map::DefaultHasher::new();
    key.hash(&mut hasher);
    hasher.finish()
}

/// The hexadecimal digit of a value below sixteen.
pub open spec fn hex_digit(d: int) -> char {
    if d < 10 {
        ('0' as int + d) as char
    } else {
        ('a' as int + d - 10) as char
    }
}

/// The last `width` hexadecimal digits of `n`, leading zeros written out.
pub open spec fn hex_digits(n: nat, width: nat) -> Seq<char>
    decreases width,
{
    if width == 0 {
        Seq::empty()
    } else {
        hex_digits(n / 16, (width - 1) as nat).push(hex_digit((n % 16) as int))
    }
}

fn push_hex(out: &mut Vec<char>, n: u64, width: usize)
    ensures
        final(out)@ == old(out)@ + hex_digits(n as nat, width as nat),
    decreases width,
{
    if width > 0 {
        push_hex(out, n / 16, width - 1);
        let d: u8 = (n % 16) as u8;
        out.push(
            if d < 10 {
                (48 + d) as char
            } else {
                (97 + (d - 10)) as char
            },
        );
    }
    assert(out@ == old(out)@ + hex_digits(n as nat, width as nat));
}

/// A hash as sixteen hexadecimal digits.
pub fn stem_of_hash(hash: u64) -> (stem: String)
    ensures
        stem@ == hex_digits(hash as nat, 16),
{
    let mut chars: Vec<char> = Vec::new();
    push_hex(&mut chars, hash, 16);
    assert(chars@ == hex_digits(hash as nat, 16));
    string_of(chars.as_slice())
}

/// A name made of a stem and what follows it.
pub fn file_name(stem: &str, suffix: &str) -> (name: String)
    ensures
        name@ == stem@ + suffix@,
{
    let mut chars: Vec<char> = Vec::new();
    push_text(&mut chars, stem);
    push_text(&mut chars, suffix);
    assert(chars@ == stem@ + suffix@);
    string_of(chars.as_slice())
}

/// The names of the two cache files of a stem: that of the ticks and that of
/// the samples.
pub fn level0_file_names(stem: &str) -> (names: (String, String))
    ensures
        names.0@ == stem@ + ".ts.glyc0"@,
        names.1@ == stem@ + ".val.glyc0"@,
{
    (file_name(stem, ".ts.glyc0"), file_name(stem, ".val.glyc0"))
}

/// One of the two files.
pub open spec fn level0_file<T: Element>(elements: Seq<T>, order: ByteOrder) -> Seq<u8> {
    header::header_bytes(FileKind::Level0, 0, order) + typed::run_bytes(elements, order)
}

/// The elements of one of the two files, `None` where it is no such file.
pub open spec fn level0_elements<T: Element>(file: Seq<u8>, order: ByteOrder) -> Option<Seq<T>> {
    if header::header_of(file, FileKind::Level0, order) is Known && (file.len() - HEADER_LEN)
        % (T::width() as int) == 0 {
        Some(typed::run_elements::<T>(file.skip(16), order))
    } else {
        None
    }
}

/// The ticks and samples of the two files. There are none where one of the
/// files is missing, is no such file, or does not go with the other.
pub open spec fn level0_contents(
    timestamps: Option<Seq<u8>>,
    values: Option<Seq<u8>>,
    order: ByteOrder,
) -> Option<(Seq<i128>, Seq<u64>)> {
    match (timestamps, values) {
        (Some(timestamps), Some(values)) => match (
            level0_elements::<i128>(timestamps, order),
            level0_elements::<u64>(values, order),
        ) {
            (Some(ticks), Some(samples)) if ticks.len() == samples.len() => Some((ticks, samples)),
            _ => None,
        },
        _ => None,
    }
}

/// What was written to the two files is what is read from them.
pub proof fn law_level0_cache_reads_back(ticks: Seq<i128>, samples: Seq<u64>, order: ByteOrder)
    requires
        ticks.len() == samples.len(),
    ensures
        level0_contents(
            Some(level0_file(ticks, order)),
            Some(level0_file(samples, order)),
            order,
        ) == Some((ticks, samples)),
{
    lemma_level0_file(ticks, order);
    lemma_level0_file(samples, order);
}

proof fn lemma_level0_file<T: Element>(elements: Seq<T>, order: ByteOrder)
    ensures
        level0_elements::<T>(level0_file(elements, order), order) == Some(elements),
{
    let run = typed::run_bytes(elements, order);
    header::law_header_reads_back(FileKind::Level0, 0, order, run);
    typed::lemma_run_len(elements, order);
    typed::law_run_reads_back(elements, order);
    let n = elements.len() as int;
    let w = T::width() as int;
    assert((n * w) % w == 0) by (nonlinear_arith)
        requires
            w >= 1,
    ;
}

/// A cache that has been read: the ticks and samples of a column.
#[derive(Debug, Clone, PartialEq, Eq)]
pub struct Level0Cache {
    timestamps: Vec<i128>,
    samples: Vec<u64>,
}

impl View for Level0Cache {
    type V = (Seq<i128>, Seq<u64>);

    closed spec fn view(&self) -> (Seq<i128>, Seq<u64>) {
        (self.timestamps@, self.samples@)
    }
}

impl Level0Cache {
    /// There are as many ticks as samples.
    pub closed spec fn wf(&self) -> bool {
        self.timestamps@.len() == self.samples@.len()
    }

    /// The ticks, in row order.
    pub fn timestamps(&self) -> (timestamps: &[i128])
        ensures
            timestamps@ == self@.0,
    {
        self.timestamps.as_slice()
    }

    /// The samples, one for each tick.
    pub fn samples(&self) -> (samples: &[u64])
        ensures
            samples@ == self@.1,
    {
        self.samples.as_slice()
    }

    /// How many samples there are.
    pub fn sample_count(&self) -> (count: usize)
        ensures
            count == self@.1.len(),
    {
        self.samples.len()
    }
}

/// The two files of a cache.
#[derive(Debug, Clone, PartialEq, Eq)]
pub struct Level0Files {
    pub timestamps: Vec<u8>,
    pub values: Vec<u8>,
}

impl Level0Files {
    /// The files hold these ticks and samples.
    pub open spec fn hold(&self, ticks: Seq<i128>, samples: Seq<u64>, order: ByteOrder) -> bool {
        &&& self.timestamps@ == level0_file(ticks, order)
        &&& self.values@ == level0_file(samples, order)
    }
}

/// Appends samples to the two files, one at a time.
pub struct Level0CacheWriter {
    files: Level0Files,
    order: ByteOrder,
    ticks: Ghost<Seq<i128>>,
    samples: Ghost<Seq<u64>>,
}

impl View for Level0CacheWriter {
    type V = (Seq<i128>, Seq<u64>);

    closed spec fn view(&self) -> (Seq<i128>, Seq<u64>) {
        (self.ticks@, self.samples@)
    }
}

impl Level0CacheWriter {
    /// The files hold what was pushed so far.
    pub closed spec fn wf(&self) -> bool {
        &&& self.files.hold(self.ticks@, self.samples@, self.order)
        &&& self.ticks@.len() == self.samples@.len()
    }

    /// The order of the bytes in the files.
    pub closed spec fn order_spec(&self) -> ByteOrder {
        self.order
    }

    /// Two files with nothing but a header.
    pub fn create(order: ByteOrder) -> (writer: Level0CacheWriter)
        ensures
            writer.wf(),
            writer@ == (Seq::<i128>::empty(), Seq::<u64>::empty()),
            writer.order_spec() == order,
    {
        let mut timestamps: Vec<u8> = Vec::new();
        push_header(&mut timestamps, FileKind::Level0, 0, order);
        let mut values: Vec<u8> = Vec::new();
        push_header(&mut values, FileKind::Level0, 0, order);
        assert(timestamps@ == level0_file(Seq::<i128>::empty(), order));
        assert(values@ == level0_file(Seq::<u64>::empty(), order));
        Level0CacheWriter {
            files: Level0Files { timestamps, values },
            order,
            ticks: Ghost(Seq::empty()),
            samples: Ghost(Seq::empty()),
        }
    }

    /// Appends one sample and its tick.
    pub fn push(&mut self, timestamp: i128, value: u64)
        requires
            old(self).wf(),
        ensures
            final(self).wf(),
            final(self)@ == (old(self)@.0.push(timestamp), old(self)@.1.push(value)),
            final(self).order_spec() == old(self).order_spec(),
    {
        let ghost ticks: Seq<i128> = self.ticks@;
        let ghost samples: Seq<u64> = self.samples@;
        push_element(&mut self.files.timestamps, timestamp, self.order);
        push_element(&mut self.files.values, value, self.order);
        self.ticks = Ghost(ticks.push(timestamp));
        self.samples = Ghost(samples.push(value));
        proof {
            assert(ticks.push(timestamp).drop_last() == ticks);
            assert(samples.push(value).drop_last() == samples);
            assert(self.files.timestamps@ == level0_file(self.ticks@, self.order));
            assert(self.files.values@ == level0_file(self.samples@, self.order));
        }
    }

    /// The finished files.
    pub fn finish(self) -> (files: Level0Files)
        requires
            self.wf(),
        ensures
            files.hold(self@.0, self@.1, self.order_spec()),
    {
        self.files
    }
}

/// The files of a cache of samples that are at hand.
pub fn build(samples: &[u64], timestamps: &[i128], order: ByteOrder) -> (files: Level0Files)
    requires
        samples@.len() == timestamps@.len(),
    ensures
        files.hold(timestamps@, samples@, order),
{
    let mut writer: Level0CacheWriter = Level0CacheWriter::create(order);
    let mut i: usize = 0;
    proof {
        assert(timestamps@.take(0) == Seq::<i128>::empty());
        assert(samples@.take(0) == Seq::<u64>::empty());
    }
    while i < samples.len()
        invariant
            samples@.len() == timestamps@.len(),
            i <= samples@.len(),
            writer.wf(),
            writer.order_spec() == order,
            writer@ == (timestamps@.take(i as int), samples@.take(i as int)),
        decreases samples@.len() - i,
    {
        proof {
            assert(timestamps@.take(i + 1) == timestamps@.take(i as int).push(
                timestamps@[i as int],
            ));
            assert(samples@.take(i + 1) == samples@.take(i as int).push(samples@[i as int]));
        }
        writer.push(timestamps[i], samples[i]);
        i = i + 1;
    }
    proof {
        assert(timestamps@.take(timestamps@.len() as int) == timestamps@);
        assert(samples@.take(samples@.len() as int) == samples@);
    }
    writer.finish()
}

fn read_file<T: Element>(file: &[u8], order: ByteOrder) -> (elements: Option<Vec<T>>)
    ensures
        match elements {
            Some(elements) => level0_elements::<T>(file@, order) == Some(elements@),
            None => level0_elements::<T>(file@, order) is None,
        },
{
    match read_header(file, FileKind::Level0, order) {
        HeaderReading::Known(_) => {},
        _ => {
            return None;
        },
    }
    let size: usize = T::size();
    let total: usize = file.len();
    if (total - HEADER_LEN) % size != 0 {
        return None;
    }
    let count: usize = (total - HEADER_LEN) / size;
    let ghost run: Seq<u8> = file@.skip(16);
    let mut elements: Vec<T> = Vec::new();
    let mut i: usize = 0;
    let mut at: usize = HEADER_LEN;
    proof {
        assert(count * size == total - HEADER_LEN) by (nonlinear_arith)
            requires
                (total - HEADER_LEN) % (size as int) == 0,
                count == (total - HEADER_LEN) / (size as int),
                size >= 1,
        ;
        assert(0 * size == 0) by (nonlinear_arith);
    }
    while i < count
        invariant
            total == file@.len(),
            run == file@.skip(16),
            size == T::width(),
            1 <= size <= 16,
            count * size == total - HEADER_LEN,
            total >= HEADER_LEN,
            i <= count,
            at == HEADER_LEN + i * size,
            elements@.len() == i,
            forall|j: int|
                0 <= j < i ==> #[trigger] elements@[j] == typed::element_at::<T>(run, j, order),
        decreases count - i,
    {
        proof {
            assert((i + 1) * size == i * size + size && (i + 1) * size <= count * size && 0 <= i
                * size) by (nonlinear_arith)
                requires
                    0 <= i < count,
                    size >= 1,
            ;
            assert(run.subrange(i * size, (i + 1) * size) == file@.subrange(
                at as int,
                at + size,
            ));
        }
        elements.push(read_element::<T>(file, at, order));
        at = at + size;
        i = i + 1;
    }
    assert(elements@ == typed::run_elements::<T>(run, order));
    Some(elements)
}

/// The bytes of a file that may be missing.
pub open spec fn optional_bytes(file: Option<&[u8]>) -> Option<Seq<u8>> {
    match file {
        Some(file) => Some(file@),
        None => None,
    }
}

/// Reads the two files of a cache. A missing or unusable cache is no error:
/// there just is none.
pub fn try_open(timestamps: Option<&[u8]>, values: Option<&[u8]>, order: ByteOrder) -> (cache:
    Option<Level0Cache>)
    ensures
        match cache {
            Some(cache) => cache.wf() && level0_contents(
                optional_bytes(timestamps),
                optional_bytes(values),
                order,
            ) == Some(cache@),
            None => level0_contents(
                optional_bytes(timestamps),
                optional_bytes(values),
                order,
            ) is None,
        },
{
    match (timestamps, values) {
        (Some(timestamps), Some(values)) => {
            let ticks: Vec<i128> = match read_file::<i128>(timestamps, order) {
                Some(ticks) => ticks,
                None => {
                    return None;
                },
            };
            let samples: Vec<u64> = match read_file::<u64>(values, order) {
                Some(samples) => samples,
                None => {
                    return None;
                },
            };
            if ticks.len() != samples.len() {
                return None;
            }
            Some(Level0Cache { timestamps: ticks, samples })
        },
        _ => None,
    }
}

fn copied<T: Copy>(values: &[T]) -> (copy: Vec<T>)
    ensures
        copy@ == values@,
{
    let mut copy: Vec<T> = Vec::new();
    let mut i: usize = 0;
    while i < values.len()
        invariant
            i <= values@.len(),
            copy@ == values@.take(i as int),
        decreases values@.len() - i,
    {
        assert(values@.take(i + 1) == values@.take(i as int).push(values@[i as int]));
        copy.push(values[i]);
        i = i + 1;
    }
    assert(values@.take(values@.len() as int) == values@);
    copy
}

/// The cache that there is, or else one of the samples at hand, with the files
/// that are then to be written.
pub fn build_or_open(
    timestamps_file: Option<&[u8]>,
    values_file: Option<&[u8]>,
    samples: &[u64],
    timestamps: &[i128],
    order: ByteOrder,
) -> (opened: (Level0Cache, Option<Level0Files>))
    requires
        samples@.len() == timestamps@.len(),
    ensures
        opened.0.wf(),
        match level0_contents(
            optional_bytes(timestamps_file),
            optional_bytes(values_file),
            order,
        ) {
            Some(contents) => opened.0@ == contents && opened.1 is None,
            None => opened.0@ == (timestamps@, samples@) && (opened.1 matches Some(files)
                && files.hold(timestamps@, samples@, order)),
        },
{
    match try_open(timestamps_file, values_file, order) {
        Some(cache) => (cache, None),
        None => {
            let files: Level0Files = build(samples, timestamps, order);
            let cache: Level0Cache = Level0Cache {
                timestamps: copied(timestamps),
                samples: copied(samples),
            };
            (cache, Some(files))
        },
    }
}

} // verus!
