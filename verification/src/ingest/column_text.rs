//! The raw text of one column: every field in one buffer, with a note of where
//! each begins and how long it is.

use vstd::prelude::*;
use vstd::string::StringExecFns;

verus! {

/// The first `n` texts put together.
pub open spec fn joined_texts(fields: Seq<Seq<char>>, n: int) -> Seq<char>
    decreases n,
{
    if n <= 0 {
        Seq::empty()
    } else {
        joined_texts(fields, n - 1) + fields[n - 1]
    }
}

/// How many bytes a text takes in UTF-8.
pub open spec fn byte_len(s: Seq<char>) -> nat {
    vstd::utf8::encode_utf8(s).len()
}

/// The text of a column, one entry for each row that was kept.
pub struct ColumnText {
    buffer: String,
    ranges: Vec<(usize, usize)>,
    fields: Ghost<Seq<Seq<char>>>,
}

impl View for ColumnText {
    type V = Seq<Seq<char>>;

    closed spec fn view(&self) -> Seq<Seq<char>> {
        self.fields@
    }
}

impl ColumnText {
    /// The buffer holds the fields one behind the other, and the ranges say
    /// where.
    pub closed spec fn wf(&self) -> bool {
        let fields = self.fields@;
        &&& self.ranges@.len() == fields.len()
        &&& self.buffer@ == joined_texts(fields, fields.len() as int)
        &&& forall|i: int|
            0 <= i < fields.len() ==> (#[trigger] self.ranges@[i]).0 == byte_len(
                joined_texts(fields, i),
            ) && self.ranges@[i].1 == byte_len(fields[i])
    }

    /// A column without fields.
    pub fn new() -> (column: ColumnText)
        ensures
            column.wf(),
            column@ == Seq::<Seq<char>>::empty(),
    {
        ColumnText { buffer: String::new(), ranges: Vec::new(), fields: Ghost(Seq::empty()) }
    }

    /// Appends a field.
    pub fn push(&mut self, field: &str)
        requires
            old(self).wf(),
        ensures
            final(self).wf(),
            final(self)@ == old(self)@.push(field@),
    {
        let ghost before: Seq<Seq<char>> = self.fields@;
        let ghost n: int = before.len() as int;
        let start: usize = self.buffer.as_str().as_bytes().len();
        let len: usize = field.as_bytes().len();
        self.buffer.append(field);
        self.ranges.push((start, len));
        self.fields = Ghost(before.push(field@));
        proof {
            let after = self.fields@;
            assert forall|i: int| 0 <= i <= n implies #[trigger] joined_texts(after, i)
                == joined_texts(before, i) by {
                lemma_joined_prefix(before, field@, i);
            }
            assert(joined_texts(after, n + 1) == joined_texts(after, n) + field@);
            assert forall|i: int| 0 <= i < after.len() implies (#[trigger] self.ranges@[i]).0
                == byte_len(joined_texts(after, i)) && self.ranges@[i].1 == byte_len(after[i]) by {
                assert(joined_texts(after, i) == joined_texts(before, i));
            }
        }
    }

    /// How many fields there are.
    pub fn len(&self) -> (len: usize)
        requires
            self.wf(),
        ensures
            len == self@.len(),
    {
        self.ranges.len()
    }

    /// The field at `index`, or `None` past the end.
    pub fn get(&self, index: usize) -> (field: Option<&str>)
        requires
            self.wf(),
        ensures
            match field {
                Some(text) => index < self@.len() && text@ == self@[index as int],
                None => index >= self@.len(),
            },
    {
        if index >= self.ranges.len() {
            return None;
        }
        let (start, len) = self.ranges[index];
        let ghost fields: Seq<Seq<char>> = self.fields@;
        let ghost before: Seq<char> = joined_texts(fields, index as int);
        let ghost field: Seq<char> = fields[index as int];
        let ghost after: Seq<char> = lemma_joined_around(
            fields,
            index as int,
            fields.len() as int,
        );
        proof {
            assert(self.ranges@[index as int].0 == byte_len(before));
            lemma_boundary_between(before, field + after);
            lemma_encoding_concatenates(before, field + after);
        }
        let (_, rest) = self.buffer.as_str().split_at(start);
        proof {
            assert(vstd::utf8::encode_utf8(rest@) == vstd::utf8::encode_utf8(field + after));
            lemma_same_encoding(rest@, field + after);
            lemma_boundary_between(field, after);
            lemma_encoding_concatenates(field, after);
        }
        let (text, _) = rest.split_at(len);
        proof {
            assert(vstd::utf8::encode_utf8(text@) == vstd::utf8::encode_utf8(field));
            lemma_same_encoding(text@, field);
        }
        Some(text)
    }

    /// Every field, in row order.
    pub fn to_vec(&self) -> (fields: Vec<String>)
        requires
            self.wf(),
        ensures
            crate::text::texts(fields@) == self@,
    {
        let mut fields: Vec<String> = Vec::new();
        let mut i: usize = 0;
        let count: usize = self.len();
        while i < count
            invariant
                self.wf(),
                count == self@.len(),
                i <= count,
                fields@.len() == i,
                forall|j: int| 0 <= j < i ==> (#[trigger] fields@[j])@ == self@[j],
            decreases count - i,
        {
            match self.get(i) {
                Some(text) => {
                    fields.push(text.to_owned());
                },
                None => {},
            }
            i = i + 1;
        }
        assert(crate::text::texts(fields@) == self@);
        fields
    }
}

/// Another text behind the first ones does not change them.
pub proof fn lemma_joined_prefix(fields: Seq<Seq<char>>, field: Seq<char>, n: int)
    requires
        0 <= n <= fields.len(),
    ensures
        joined_texts(fields.push(field), n) == joined_texts(fields, n),
    decreases n,
{
    if n > 0 {
        lemma_joined_prefix(fields, field, n - 1);
    }
}

/// What stands behind a text in the buffer.
pub proof fn lemma_joined_around(fields: Seq<Seq<char>>, i: int, n: int) -> (after: Seq<char>)
    requires
        0 <= i < n <= fields.len(),
    ensures
        joined_texts(fields, n) == joined_texts(fields, i) + (fields[i] + after),
    decreases n,
{
    if n == i + 1 {
        assert(fields[i] + Seq::<char>::empty() == fields[i]);
        Seq::empty()
    } else {
        let after = lemma_joined_around(fields, i, n - 1);
        assert(joined_texts(fields, i) + (fields[i] + after) + fields[n - 1] == joined_texts(
            fields,
            i,
        ) + (fields[i] + (after + fields[n - 1])));
        after + fields[n - 1]
    }
}

/// The encoding of two texts is the one's behind the other's.
pub proof fn lemma_encoding_concatenates(first: Seq<char>, second: Seq<char>)
    ensures
        vstd::utf8::encode_utf8(first + second) == vstd::utf8::encode_utf8(first)
            + vstd::utf8::encode_utf8(second),
    decreases first.len(),
{
    if first.len() == 0 {
        assert(first + second == second);
    } else {
        lemma_encoding_concatenates(first.drop_first(), second);
        assert((first + second).drop_first() == first.drop_first() + second);
    }
}

/// Between two texts there is a character boundary.
pub proof fn lemma_boundary_between(first: Seq<char>, second: Seq<char>)
    ensures
        vstd::utf8::is_char_boundary(
            vstd::utf8::encode_utf8(first + second),
            byte_len(first) as int,
        ),
{
    lemma_encoding_concatenates(first, second);
    let bytes = vstd::utf8::encode_utf8(first + second);
    let at = byte_len(first) as int;
    vstd::utf8::encode_utf8_valid_utf8(first + second);
    vstd::utf8::is_char_boundary_start_end_of_seq(bytes);
    if second.len() > 0 {
        vstd::utf8::encode_utf8_first_scalar(second);
        let tail = vstd::utf8::encode_utf8(second);
        assert(tail.len() > 0);
        assert(bytes[at] == tail[0]);
        vstd::utf8::is_char_boundary_iff_is_leading_byte(bytes, at);
    }
}

/// Texts that are encoded alike are the same.
pub proof fn lemma_same_encoding(one: Seq<char>, other: Seq<char>)
    requires
        vstd::utf8::encode_utf8(one) == vstd::utf8::encode_utf8(other),
    ensures
        one == other,
{
    vstd::utf8::encode_utf8_decode_utf8(one);
    vstd::utf8::encode_utf8_decode_utf8(other);
}

} // verus!
