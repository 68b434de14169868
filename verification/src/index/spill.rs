//! Columns that are too large to hold as values: each is kept as the bytes of
//! a file, one fixed-width element behind the other.

use vstd::prelude::*;
use crate::error::{GlydeError, Result};
use crate::index::bytes::ByteOrder;
use crate::index::header;
use crate::index::header::{push_header, read_header, FileKind, HeaderReading, HEADER_LEN};
use crate::index::typed;
use crate::index::typed::{push_element, read_element, Element};
use crate::ingest::column_text;
use crate::ingest::encoding::read_utf8;

verus! {

/// The file of a spilled column.
pub open spec fn spill_file<T: Element>(elements: Seq<T>, order: ByteOrder) -> Seq<u8> {
    header::header_bytes(FileKind::Spill, T::width(), order) + typed::run_bytes(elements, order)
}

/// What is wrong with a file that should hold `expected` elements.
pub open spec fn spill_fault<T: Element>(
    file: Seq<u8>,
    expected: int,
    order: ByteOrder,
) -> Option<Seq<char>> {
    match header::header_of(file, FileKind::Spill, order) {
        HeaderReading::Short => Some("spill file shorter than its own header"@),
        HeaderReading::Foreign => Some("spill file magic does not match"@),
        HeaderReading::OtherVersion => Some("spill file written by a different format version"@),
        HeaderReading::Known(width) => if width != T::width() {
            Some("spill file element width does not match the reader's"@)
        } else if file.len() - HEADER_LEN != expected * T::width() {
            Some("spill file length does not match the element count written"@)
        } else {
            None
        },
    }
}

/// The error says that the file at `path` does not hold what it should, and
/// why.
pub open spec fn is_corrupt(error: GlydeError, path: Seq<char>, why: Seq<char>) -> bool {
    error matches GlydeError::CorruptCache { path: named, reason } && named@ == path && reason@
        == why
}

/// The file of a spilled column is whole, and reading it gives back what was
/// written.
pub proof fn law_spilled_column_reads_back<T: Element>(elements: Seq<T>, order: ByteOrder)
    ensures
        spill_fault::<T>(spill_file(elements, order), elements.len() as int, order) is None,
        typed::run_elements::<T>(spill_file(elements, order).skip(16), order) == elements,
{
    let run = typed::run_bytes(elements, order);
    typed::lemma_run_len(elements, order);
    header::law_header_reads_back(FileKind::Spill, T::width(), order, run);
    typed::law_run_reads_back(elements, order);
}

/// A file that is whole is the file of the elements that are read from it.
pub proof fn law_whole_spill_file_writes_back<T: Element>(
    file: Seq<u8>,
    expected: int,
    order: ByteOrder,
)
    requires
        0 <= expected,
        spill_fault::<T>(file, expected, order) is None,
    ensures
        file == spill_file(typed::run_elements::<T>(file.skip(16), order), order),
        typed::run_elements::<T>(file.skip(16), order).len() == expected,
{
    header::law_known_header_writes_back(file, FileKind::Spill, order);
    let run = file.skip(16);
    let some: T = arbitrary();
    some.lemma_raw(0);
    let w = T::width() as int;
    assert(run.len() == expected * w);
    assert((expected * w) % w == 0 && expected * w / w == expected) by (nonlinear_arith)
        requires
            w >= 1,
    ;
    typed::law_run_writes_back::<T>(run, order);
}

/// A column kept as the bytes of its file. The file itself is written by
/// whoever keeps the table.
pub struct SpillVec<T: Element> {
    file: Vec<u8>,
    order: ByteOrder,
    elements: Ghost<Seq<T>>,
}

impl<T: Element> View for SpillVec<T> {
    type V = Seq<T>;

    closed spec fn view(&self) -> Seq<T> {
        self.elements@
    }
}

impl<T: Element> SpillVec<T> {
    /// The bytes are those of the elements.
    pub closed spec fn wf(&self) -> bool {
        self.file@ == spill_file(self.elements@, self.order)
    }

    /// The bytes of the column's file.
    pub closed spec fn file_spec(&self) -> Seq<u8> {
        self.file@
    }

    /// The order of the bytes in the column's file.
    pub closed spec fn order_spec(&self) -> ByteOrder {
        self.order
    }

    /// Takes the bytes of a file that should hold `expected` elements, or says
    /// what is wrong with them.
    pub fn from_file(path: &str, file: Vec<u8>, expected: usize, order: ByteOrder) -> (column:
        Result<SpillVec<T>>)
        ensures
            match column {
                Ok(column) => {
                    &&& spill_fault::<T>(file@, expected as int, order) is None
                    &&& column.wf()
                    &&& column.order_spec() == order
                    &&& column@ == typed::run_elements::<T>(file@.skip(16), order)
                    &&& column@.len() == expected
                },
                Err(error) => {
                    &&& spill_fault::<T>(file@, expected as int, order) is Some
                    &&& is_corrupt(
                        error,
                        path@,
                        spill_fault::<T>(file@, expected as int, order).unwrap(),
                    )
                },
            },
    {
        let size: usize = T::size();
        let reason: &str = match read_header(file.as_slice(), FileKind::Spill, order) {
            HeaderReading::Short => "spill file shorter than its own header",
            HeaderReading::Foreign => "spill file magic does not match",
            HeaderReading::OtherVersion => "spill file written by a different format version",
            HeaderReading::Known(width) => {
                proof {
                    assert(expected * size <= 0xffff_ffff_ffff_ffff * 16) by (nonlinear_arith)
                        requires
                            0 <= expected <= 0xffff_ffff_ffff_ffff,
                            0 <= size <= 16,
                    ;
                }
                if width as usize != size {
                    "spill file element width does not match the reader's"
                } else if (file.len() - HEADER_LEN) as u128 != expected as u128 * size as u128 {
                    "spill file length does not match the element count written"
                } else {
                    let ghost elements: Seq<T> = typed::run_elements::<T>(
                        file@.skip(16),
                        order,
                    );
                    proof {
                        law_whole_spill_file_writes_back::<T>(file@, expected as int, order);
                    }
                    return Ok(SpillVec { file, order, elements: Ghost(elements) });
                }
            },
        };
        Err(GlydeError::CorruptCache { path: path.to_owned(), reason: reason.to_owned() })
    }

    /// The bytes of the column's file.
    pub fn file_bytes(&self) -> (file: &[u8])
        requires
            self.wf(),
        ensures
            file@ == spill_file(self@, self.order_spec()),
            file@ == self.file_spec(),
    {
        self.file.as_slice()
    }

    /// How many elements there are.
    pub fn len(&self) -> (len: usize)
        requires
            self.wf(),
        ensures
            len == self@.len(),
            self.file_spec().len() == 16 + len * T::width(),
            1 <= T::width() <= 16,
    {
        let size: usize = T::size();
        proof {
            let n = self@.len() as int;
            let w = T::width() as int;
            typed::lemma_run_len(self@, self.order);
            header::law_header_reads_back(
                FileKind::Spill,
                T::width(),
                self.order,
                typed::run_bytes(self@, self.order),
            );
            assert(n * w / w == n) by (nonlinear_arith)
                requires
                    w >= 1,
            ;
        }
        (self.file.len() - HEADER_LEN) / size
    }

    /// Whether there are no elements.
    pub fn is_empty(&self) -> (empty: bool)
        requires
            self.wf(),
        ensures
            empty == (self@.len() == 0),
    {
        self.len() == 0
    }

    /// The element at `index`, or `None` past the end.
    pub fn get(&self, index: usize) -> (element: Option<T>)
        requires
            self.wf(),
        ensures
            match element {
                Some(value) => index < self@.len() && value == self@[index as int],
                None => index >= self@.len(),
            },
    {
        let len: usize = self.len();
        if index >= len {
            return None;
        }
        let size: usize = T::size();
        let total: usize = self.file.len();
        proof {
            let w = T::width() as int;
            let i = index as int;
            let run = typed::run_bytes(self@, self.order);
            typed::lemma_run_place(self@, i, self.order);
            typed::lemma_run_len(self@, self.order);
            header::law_header_reads_back(FileKind::Spill, T::width(), self.order, run);
            assert(0 <= i * w && (i + 1) * w == i * w + w && (i + 1) * w <= len * w)
                by (nonlinear_arith)
                requires
                    0 <= i < len,
                    w >= 1,
            ;
            assert(self.file@.subrange(16 + i * w, 16 + i * w + w) == run.subrange(
                i * w,
                (i + 1) * w,
            ));
            assert(total == 16 + len * w);
        }
        Some(read_element::<T>(self.file.as_slice(), HEADER_LEN + index * size, self.order))
    }

    /// Every element, in order.
    pub fn to_vec(&self) -> (elements: Vec<T>)
        requires
            self.wf(),
        ensures
            elements@ == self@,
    {
        let mut elements: Vec<T> = Vec::new();
        let len: usize = self.len();
        let mut i: usize = 0;
        while i < len
            invariant
                self.wf(),
                len == self@.len(),
                i <= len,
                elements@ == self@.take(i as int),
            decreases len - i,
        {
            match self.get(i) {
                Some(value) => {
                    assert(self@.take(i + 1) == self@.take(i as int).push(value));
                    elements.push(value);
                },
                None => {},
            }
            i = i + 1;
        }
        assert(self@.take(len as int) == self@);
        elements
    }
}

/// Appends elements to a column's file, one at a time.
pub struct SpillVecWriter<T: Element> {
    file: Vec<u8>,
    len: usize,
    order: ByteOrder,
    elements: Ghost<Seq<T>>,
}

impl<T: Element> View for SpillVecWriter<T> {
    type V = Seq<T>;

    closed spec fn view(&self) -> Seq<T> {
        self.elements@
    }
}

impl<T: Element> SpillVecWriter<T> {
    /// The bytes are those of the elements so far.
    pub closed spec fn wf(&self) -> bool {
        &&& self.file@ == spill_file(self.elements@, self.order)
        &&& self.len == self.elements@.len()
    }

    /// The order of the bytes in the column's file.
    pub closed spec fn order_spec(&self) -> ByteOrder {
        self.order
    }

    /// A column without elements: only the header is written.
    pub fn create(order: ByteOrder) -> (writer: SpillVecWriter<T>)
        ensures
            writer.wf(),
            writer@ == Seq::<T>::empty(),
            writer.order_spec() == order,
    {
        let mut file: Vec<u8> = Vec::new();
        push_header(&mut file, FileKind::Spill, T::size() as u32, order);
        assert(file@ == spill_file(Seq::<T>::empty(), order));
        SpillVecWriter { file, len: 0, order, elements: Ghost(Seq::empty()) }
    }

    /// Appends one element.
    pub fn push(&mut self, value: T)
        requires
            old(self).wf(),
        ensures
            final(self).wf(),
            final(self)@ == old(self)@.push(value),
            final(self).order_spec() == old(self).order_spec(),
    {
        let ghost before: Seq<T> = self.elements@;
        let total: usize = self.file.len();
        proof {
            typed::lemma_run_len(before, self.order);
            header::law_header_reads_back(
                FileKind::Spill,
                T::width(),
                self.order,
                typed::run_bytes(before, self.order),
            );
            let n = before.len() as int;
            let w = T::width() as int;
            assert(n <= n * w) by (nonlinear_arith)
                requires
                    n >= 0,
                    w >= 1,
            ;
            assert(total == 16 + n * w);
        }
        push_element(&mut self.file, value, self.order);
        self.len = self.len + 1;
        self.elements = Ghost(before.push(value));
        proof {
            let after = before.push(value);
            assert(after.drop_last() == before);
            assert(self.file@ == spill_file(after, self.order));
        }
    }

    /// Appends every element of a run.
    pub fn extend_from_slice(&mut self, values: &[T])
        requires
            old(self).wf(),
        ensures
            final(self).wf(),
            final(self)@ == old(self)@ + values@,
            final(self).order_spec() == old(self).order_spec(),
    {
        let mut i: usize = 0;
        assert(self@ + values@.take(0) == self@);
        while i < values.len()
            invariant
                i <= values@.len(),
                self.wf(),
                self@ == old(self)@ + values@.take(i as int),
                self.order_spec() == old(self).order_spec(),
            decreases values@.len() - i,
        {
            let value: T = values[i];
            assert(values@.take(i + 1) == values@.take(i as int).push(value));
            self.push(value);
            i = i + 1;
        }
        assert(values@.take(values@.len() as int) == values@);
    }

    /// How many elements there are so far.
    pub fn len(&self) -> (len: usize)
        requires
            self.wf(),
        ensures
            len == self@.len(),
            len < usize::MAX,
    {
        let total: usize = self.file.len();
        proof {
            typed::lemma_run_len(self@, self.order);
            header::law_header_reads_back(
                FileKind::Spill,
                T::width(),
                self.order,
                typed::run_bytes(self@, self.order),
            );
            let n = self@.len() as int;
            let w = T::width() as int;
            assert(n <= n * w) by (nonlinear_arith)
                requires
                    n >= 0,
                    w >= 1,
            ;
            assert(total == 16 + n * w);
        }
        self.len
    }

    /// Whether there are no elements yet.
    pub fn is_empty(&self) -> (empty: bool)
        requires
            self.wf(),
        ensures
            empty == (self@.len() == 0),
    {
        self.len == 0
    }

    /// The finished column.
    pub fn finish(self) -> (column: SpillVec<T>)
        requires
            self.wf(),
        ensures
            column.wf(),
            column@ == self@,
            column.order_spec() == self.order_spec(),
    {
        SpillVec { file: self.file, order: self.order, elements: self.elements }
    }
}

/// A column of texts: their bytes one behind the other, and where each ends.
pub struct SpillStrings {
    arena: SpillVec<u8>,
    ends: SpillVec<u64>,
    fields: Ghost<Seq<Seq<char>>>,
}

impl View for SpillStrings {
    type V = Seq<Seq<char>>;

    closed spec fn view(&self) -> Seq<Seq<char>> {
        self.fields@
    }
}

/// The bytes and the ends are those of the texts.
pub open spec fn are_texts(fields: Seq<Seq<char>>, arena: Seq<u8>, ends: Seq<u64>) -> bool {
    let n = fields.len() as int;
    &&& arena == vstd::utf8::encode_utf8(column_text::joined_texts(fields, n))
    &&& ends.len() == n
    &&& forall|i: int|
        0 <= i < n ==> #[trigger] ends[i] == column_text::byte_len(
            column_text::joined_texts(fields, i + 1),
        )
}

/// Where the bytes of a text stand.
proof fn lemma_text_place(fields: Seq<Seq<char>>, arena: Seq<u8>, ends: Seq<u64>, i: int)
    requires
        are_texts(fields, arena, ends),
        0 <= i < fields.len(),
    ensures
        ({
            let start = if i == 0 {
                0
            } else {
                ends[i - 1] as int
            };
            &&& 0 <= start <= ends[i] <= arena.len()
            &&& arena.subrange(start, ends[i] as int) == vstd::utf8::encode_utf8(fields[i])
        }),
{
    let n = fields.len() as int;
    let before = column_text::joined_texts(fields, i);
    let after = column_text::lemma_joined_around(fields, i, n);
    column_text::lemma_encoding_concatenates(before, fields[i] + after);
    column_text::lemma_encoding_concatenates(fields[i], after);
    column_text::lemma_encoding_concatenates(before, fields[i]);
    let start = if i == 0 {
        assert(before == Seq::<char>::empty());
        0
    } else {
        ends[i - 1] as int
    };
    assert(start == column_text::byte_len(before));
    assert(column_text::joined_texts(fields, i + 1) == before + fields[i]);
    assert(arena.subrange(start, ends[i] as int) == vstd::utf8::encode_utf8(fields[i]));
}

impl SpillStrings {
    /// The bytes and the ends are those of the texts, and both files have their
    /// bytes in the same order.
    pub closed spec fn wf(&self) -> bool {
        &&& self.arena.wf()
        &&& self.ends.wf()
        &&& self.arena.order_spec() == self.ends.order_spec()
        &&& are_texts(self.fields@, self.arena@, self.ends@)
    }

    /// The order of the bytes in the column's files.
    pub closed spec fn order_spec(&self) -> ByteOrder {
        self.ends.order_spec()
    }

    /// The bytes of the texts, as a column.
    pub closed spec fn arena_spec(&self) -> SpillVec<u8> {
        self.arena
    }

    /// Where each text ends, as a column.
    pub closed spec fn ends_spec(&self) -> SpillVec<u64> {
        self.ends
    }

    /// The bytes of the column's two files: that of the texts and that of their
    /// ends.
    pub fn file_bytes(&self) -> (files: (&[u8], &[u8]))
        requires
            self.wf(),
        ensures
            are_texts(self@, self.arena_spec()@, self.ends_spec()@),
            files.0@ == spill_file(self.arena_spec()@, self.order_spec()),
            files.1@ == spill_file(self.ends_spec()@, self.order_spec()),
            files.0@ == self.arena_spec().file_spec(),
            files.1@ == self.ends_spec().file_spec(),
    {
        (self.arena.file_bytes(), self.ends.file_bytes())
    }

    /// How many texts there are.
    pub fn len(&self) -> (len: usize)
        requires
            self.wf(),
        ensures
            len == self@.len(),
    {
        self.ends.len()
    }

    /// Whether there are no texts.
    pub fn is_empty(&self) -> (empty: bool)
        requires
            self.wf(),
        ensures
            empty == (self@.len() == 0),
    {
        self.ends.is_empty()
    }

    /// The text at `index`, or `None` past the end.
    pub fn get(&self, index: usize) -> (field: Option<String>)
        requires
            self.wf(),
        ensures
            match field {
                Some(text) => index < self@.len() && text@ == self@[index as int],
                None => index >= self@.len(),
            },
    {
        let ghost fields: Seq<Seq<char>> = self.fields@;
        let end: u64 = match self.ends.get(index) {
            Some(end) => end,
            None => {
                return None;
            },
        };
        let start: u64 = if index == 0 {
            0
        } else {
            match self.ends.get(index - 1) {
                Some(start) => start,
                None => 0,
            }
        };
        proof {
            lemma_text_place(fields, self.arena@, self.ends@, index as int);
        }
        let total: usize = self.arena.len();
        let mut piece: Vec<u8> = Vec::new();
        let mut i: usize = start as usize;
        while i < end as usize
            invariant
                self.wf(),
                total == self.arena@.len(),
                start <= i <= end <= total,
                piece@ == self.arena@.subrange(start as int, i as int),
            decreases end - i,
        {
            match self.arena.get(i) {
                Some(byte) => {
                    assert(self.arena@.subrange(start as int, i + 1) == self.arena@.subrange(
                        start as int,
                        i as int,
                    ).push(byte));
                    piece.push(byte);
                },
                None => {},
            }
            i = i + 1;
        }
        proof {
            assert(piece@ == vstd::utf8::encode_utf8(fields[index as int]));
            vstd::utf8::encode_utf8_valid_utf8(fields[index as int]);
        }
        match read_utf8(piece.as_slice()) {
            Ok(text) => {
                proof {
                    column_text::lemma_same_encoding(text@, fields[index as int]);
                }
                Some(text.to_owned())
            },
            Err(_) => None,
        }
    }

    /// Every text, in row order.
    pub fn to_vec(&self) -> (texts: Vec<String>)
        requires
            self.wf(),
        ensures
            crate::text::texts(texts@) == self@,
    {
        let mut texts: Vec<String> = Vec::new();
        let len: usize = self.len();
        let mut i: usize = 0;
        while i < len
            invariant
                self.wf(),
                len == self@.len(),
                i <= len,
                texts@.len() == i,
                forall|j: int| 0 <= j < i ==> (#[trigger] texts@[j])@ == self@[j],
            decreases len - i,
        {
            match self.get(i) {
                Some(text) => {
                    texts.push(text);
                },
                None => {},
            }
            i = i + 1;
        }
        assert(crate::text::texts(texts@) == self@);
        texts
    }
}

/// Appends texts to a column, one at a time.
pub struct SpillStringsWriter {
    arena: SpillVecWriter<u8>,
    ends: SpillVecWriter<u64>,
    fields: Ghost<Seq<Seq<char>>>,
}

impl View for SpillStringsWriter {
    type V = Seq<Seq<char>>;

    closed spec fn view(&self) -> Seq<Seq<char>> {
        self.fields@
    }
}

impl SpillStringsWriter {
    /// The bytes and the ends are those of the texts so far, and both files have
    /// their bytes in the same order.
    pub closed spec fn wf(&self) -> bool {
        &&& self.arena.wf()
        &&& self.ends.wf()
        &&& self.arena.order_spec() == self.ends.order_spec()
        &&& are_texts(self.fields@, self.arena@, self.ends@)
    }

    /// The order of the bytes in the column's files.
    pub closed spec fn order_spec(&self) -> ByteOrder {
        self.ends.order_spec()
    }

    /// A column without texts.
    pub fn create(order: ByteOrder) -> (writer: SpillStringsWriter)
        ensures
            writer.wf(),
            writer@ == Seq::<Seq<char>>::empty(),
            writer.order_spec() == order,
    {
        let writer: SpillStringsWriter = SpillStringsWriter {
            arena: SpillVecWriter::create(order),
            ends: SpillVecWriter::create(order),
            fields: Ghost(Seq::empty()),
        };
        assert(are_texts(writer.fields@, writer.arena@, writer.ends@));
        writer
    }

    /// Appends a text, byte for byte.
    pub fn push(&mut self, field: &str)
        requires
            old(self).wf(),
        ensures
            final(self).wf(),
            final(self)@ == old(self)@.push(field@),
            final(self).order_spec() == old(self).order_spec(),
    {
        let ghost before: Seq<Seq<char>> = self.fields@;
        let ghost n: int = before.len() as int;
        self.arena.extend_from_slice(field.as_bytes());
        let end: usize = self.arena.len();
        self.ends.push(end as u64);
        self.fields = Ghost(before.push(field@));
        proof {
            let after = self.fields@;
            column_text::lemma_joined_prefix(before, field@, n);
            column_text::lemma_encoding_concatenates(
                column_text::joined_texts(before, n),
                field@,
            );
            assert(column_text::joined_texts(after, n + 1) == column_text::joined_texts(before, n)
                + field@);
            assert forall|i: int| 0 <= i < after.len() implies #[trigger] self.ends@[i]
                == column_text::byte_len(column_text::joined_texts(after, i + 1)) by {
                if i < n {
                    column_text::lemma_joined_prefix(before, field@, i + 1);
                }
            }
        }
    }

    /// How many texts there are so far.
    pub fn len(&self) -> (len: usize)
        requires
            self.wf(),
        ensures
            len == self@.len(),
    {
        self.ends.len()
    }

    /// Whether there are no texts yet.
    pub fn is_empty(&self) -> (empty: bool)
        requires
            self.wf(),
        ensures
            empty == (self@.len() == 0),
    {
        self.ends.is_empty()
    }

    /// The finished column.
    pub fn finish(self) -> (column: SpillStrings)
        requires
            self.wf(),
        ensures
            column.wf(),
            column@ == self@,
            column.order_spec() == self.order_spec(),
    {
        SpillStrings {
            arena: self.arena.finish(),
            ends: self.ends.finish(),
            fields: self.fields,
        }
    }
}

} // verus!
