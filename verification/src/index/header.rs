//! The header that every cache file begins with: eight bytes that say what the
//! file is, the version of its format, and one more number.

use vstd::prelude::*;
use crate::index::bytes;
use crate::index::bytes::{push_uint, read_uint, ByteOrder};

verus! {

/// How long the header is.
pub const HEADER_LEN: usize = 16;

/// The version of the formats.
pub const FORMAT_VERSION: u32 = 1;

/// What a cache file holds.
#[derive(Debug, Clone, Copy, PartialEq, Eq, Structural)]
pub enum FileKind {
    /// One spilled column.
    Spill,
    /// The ticks or the samples of a column.
    Level0,
    /// The levels of a pyramid.
    Pyramid,
}

impl FileKind {
    /// The eight bytes that a file of this kind begins with.
    pub open spec fn magic(self) -> Seq<u8> {
        match self {
            FileKind::Spill => seq![0x47u8, 0x4c, 0x59, 0x44, 0x45, 0x53, 0x50, 0x00],
            FileKind::Level0 => seq![0x47u8, 0x4c, 0x59, 0x44, 0x45, 0x43, 0x30, 0x00],
            FileKind::Pyramid => seq![0x47u8, 0x4c, 0x59, 0x44, 0x45, 0x50, 0x59, 0x52],
        }
    }

    /// The eight bytes that a file of this kind begins with.
    pub fn magic_bytes(self) -> (magic: [u8; 8])
        ensures
            magic@ == self.magic(),
    {
        let magic: [u8; 8] = match self {
            FileKind::Spill => [0x47, 0x4c, 0x59, 0x44, 0x45, 0x53, 0x50, 0x00],
            FileKind::Level0 => [0x47, 0x4c, 0x59, 0x44, 0x45, 0x43, 0x30, 0x00],
            FileKind::Pyramid => [0x47, 0x4c, 0x59, 0x44, 0x45, 0x50, 0x59, 0x52],
        };
        assert(magic@ == self.magic());
        magic
    }
}

/// A header.
pub open spec fn header_bytes(kind: FileKind, extra: nat, order: ByteOrder) -> Seq<u8> {
    kind.magic() + bytes::encoded(FORMAT_VERSION as nat, 4, order) + bytes::encoded(
        extra,
        4,
        order,
    )
}

/// What a header says.
#[derive(Debug, Clone, Copy, PartialEq, Eq, Structural)]
pub enum HeaderReading {
    /// The file is too short for one.
    Short,
    /// The file is of another kind.
    Foreign,
    /// The file is of another version.
    OtherVersion,
    /// It is as expected and holds this number.
    Known(u32),
}

/// What the header of a file says.
pub open spec fn header_of(file: Seq<u8>, kind: FileKind, order: ByteOrder) -> HeaderReading {
    if file.len() < HEADER_LEN {
        HeaderReading::Short
    } else if file.take(8) != kind.magic() {
        HeaderReading::Foreign
    } else if bytes::decoded(file.subrange(8, 12), order) != FORMAT_VERSION {
        HeaderReading::OtherVersion
    } else {
        HeaderReading::Known(bytes::decoded(file.subrange(12, 16), order) as u32)
    }
}

/// A header is read as what it was written with, whatever stands behind it.
pub proof fn law_header_reads_back(kind: FileKind, extra: nat, order: ByteOrder, rest: Seq<u8>)
    requires
        extra <= u32::MAX,
    ensures
        header_bytes(kind, extra, order).len() == HEADER_LEN,
        header_of(header_bytes(kind, extra, order) + rest, kind, order) == HeaderReading::Known(
            extra as u32,
        ),
        (header_bytes(kind, extra, order) + rest).skip(16) == rest,
{
    bytes::lemma_pow256(4);
    bytes::law_bytes_read_back(FORMAT_VERSION as nat, 4, order);
    bytes::law_bytes_read_back(extra, 4, order);
    let file = header_bytes(kind, extra, order) + rest;
    assert(file.take(8) == kind.magic());
    assert(file.subrange(8, 12) == bytes::encoded(FORMAT_VERSION as nat, 4, order));
    assert(file.subrange(12, 16) == bytes::encoded(extra, 4, order));
    assert(file.skip(16) == rest);
}

/// A file whose header is as expected begins with that header.
pub proof fn law_known_header_writes_back(file: Seq<u8>, kind: FileKind, order: ByteOrder)
    requires
        header_of(file, kind, order) is Known,
    ensures
        file == header_bytes(
            kind,
            header_of(file, kind, order)->Known_0 as nat,
            order,
        ) + file.skip(16),
{
    bytes::lemma_pow256(4);
    bytes::law_bytes_write_back(file.subrange(8, 12), order);
    bytes::law_bytes_write_back(file.subrange(12, 16), order);
    let extra = bytes::decoded(file.subrange(12, 16), order);
    assert(file == header_bytes(kind, extra, order) + file.skip(16));
}

/// Appends a header.
pub fn push_header(out: &mut Vec<u8>, kind: FileKind, extra: u32, order: ByteOrder)
    ensures
        final(out)@ == old(out)@ + header_bytes(kind, extra as nat, order),
{
    let magic: [u8; 8] = kind.magic_bytes();
    let mut i: usize = 0;
    while i < 8
        invariant
            i <= 8,
            magic@ == kind.magic(),
            magic@.len() == 8,
            out@ == old(out)@ + magic@.take(i as int),
        decreases 8 - i,
    {
        assert(magic@.take(i + 1) == magic@.take(i as int).push(magic@[i as int]));
        out.push(magic[i]);
        i = i + 1;
    }
    assert(magic@.take(8) == magic@);
    proof {
        bytes::lemma_pow256(4);
    }
    push_uint(out, FORMAT_VERSION as u128, 4, order);
    push_uint(out, extra as u128, 4, order);
    assert(out@ == old(out)@ + header_bytes(kind, extra as nat, order));
}

/// Reads the header of a file.
pub fn read_header(file: &[u8], kind: FileKind, order: ByteOrder) -> (reading: HeaderReading)
    ensures
        reading == header_of(file@, kind, order),
{
    if file.len() < HEADER_LEN {
        return HeaderReading::Short;
    }
    let magic: [u8; 8] = kind.magic_bytes();
    let mut i: usize = 0;
    while i < 8
        invariant
            i <= 8 <= file@.len(),
            file@.len() >= HEADER_LEN,
            magic@ == kind.magic(),
            magic@.len() == 8,
            forall|j: int| 0 <= j < i ==> file@[j] == magic@[j],
        decreases 8 - i,
    {
        if file[i] != magic[i] {
            assert(file@.take(8)[i as int] != kind.magic()[i as int]);
            return HeaderReading::Foreign;
        }
        i = i + 1;
    }
    assert(file@.take(8) == kind.magic());
    if read_uint(file, 8, 4, order) != FORMAT_VERSION as u128 {
        return HeaderReading::OtherVersion;
    }
    proof {
        bytes::lemma_pow256(4);
    }
    HeaderReading::Known(read_uint(file, 12, 4, order) as u32)
}

} // verus!
