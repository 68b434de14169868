//! The bounded part of a text that the inference looks at.

use vstd::prelude::*;
use crate::ingest::encoding::HEAD_SAMPLE_BYTES;

verus! {

/// The last character boundary at or before `i`.
pub open spec fn boundary_before(bytes: Seq<u8>, i: int) -> int
    decreases i,
{
    if i <= 0 || vstd::utf8::is_char_boundary(bytes, i) {
        i
    } else {
        boundary_before(bytes, i - 1)
    }
}

/// The last line break among the first `n` bytes.
pub open spec fn last_line_break(bytes: Seq<u8>, n: int) -> Option<int>
    decreases n,
{
    if n <= 0 {
        None
    } else if bytes[n - 1] == 0x0a {
        Some(n - 1)
    } else {
        last_line_break(bytes, n - 1)
    }
}

/// Where the head of a text ends: behind the last whole line of the first
/// `HEAD_SAMPLE_BYTES` bytes, or behind the last whole character where there
/// is no whole line. A text that is no longer than that is all head.
pub open spec fn head_end(bytes: Seq<u8>) -> int {
    if bytes.len() <= HEAD_SAMPLE_BYTES {
        bytes.len() as int
    } else {
        let cut = boundary_before(bytes, HEAD_SAMPLE_BYTES as int);
        match last_line_break(bytes, cut) {
            Some(at) => at + 1,
            None => cut,
        }
    }
}

/// The head of a text.
pub open spec fn head_sample(text: Seq<char>) -> Seq<char> {
    let bytes = vstd::utf8::encode_utf8(text);
    vstd::utf8::decode_utf8(bytes.take(head_end(bytes)))
}

/// The head of a text: whole lines, so that the place of a record in the head
/// is its place in the text.
pub fn bounded_head_sample(text: &str) -> (sample: &str)
    ensures
        sample@ == head_sample(text@),
        vstd::utf8::encode_utf8(sample@).len() <= HEAD_SAMPLE_BYTES,
        vstd::utf8::encode_utf8(sample@) == vstd::utf8::encode_utf8(text@).take(
            head_end(vstd::utf8::encode_utf8(text@)),
        ),
{
    let ghost all: Seq<u8> = vstd::utf8::encode_utf8(text@);
    let bytes: &[u8] = text.as_bytes();
    proof {
        vstd::utf8::encode_utf8_valid_utf8(text@);
        vstd::utf8::encode_utf8_decode_utf8(text@);
    }
    if bytes.len() <= HEAD_SAMPLE_BYTES {
        assert(all.take(all.len() as int) == all);
        return text;
    }
    let mut cut: usize = HEAD_SAMPLE_BYTES;
    while cut > 0 && !text.is_char_boundary(cut)
        invariant
            all == vstd::utf8::encode_utf8(text@),
            cut <= HEAD_SAMPLE_BYTES,
            boundary_before(all, cut as int) == boundary_before(all, HEAD_SAMPLE_BYTES as int),
        decreases cut,
    {
        cut = cut - 1;
    }
    let mut n: usize = cut;
    while n > 0 && bytes[n - 1] != 0x0a
        invariant
            bytes@ == all,
            n <= cut <= bytes@.len(),
            last_line_break(all, n as int) == last_line_break(all, cut as int),
        decreases n,
    {
        n = n - 1;
    }
    let end: usize = if n > 0 {
        n
    } else {
        cut
    };
    proof {
        vstd::utf8::is_char_boundary_start_end_of_seq(all);
        if n > 0 {
            lemma_boundary_behind_line_break(all, n - 1);
        }
        assert(vstd::utf8::is_char_boundary(all, end as int));
        assert(end == head_end(all));
    }
    let (sample, _) = text.split_at(end);
    proof {
        assert(vstd::utf8::encode_utf8(sample@) == all.take(end as int));
        vstd::utf8::encode_utf8_decode_utf8(sample@);
    }
    sample
}

/// Behind a line break there is a character boundary.
proof fn lemma_boundary_behind_line_break(bytes: Seq<u8>, at: int)
    requires
        vstd::utf8::valid_utf8(bytes),
        0 <= at < bytes.len(),
        bytes[at] == 0x0a,
    ensures
        vstd::utf8::is_char_boundary(bytes, at + 1),
{
    vstd::utf8::is_char_boundary_start_end_of_seq(bytes);
    if at + 1 < bytes.len() {
        assert(vstd::utf8::is_leading_byte_width_1(0x0a)) by (bit_vector);
        vstd::utf8::is_char_boundary_iff_is_leading_byte(bytes, at);
        vstd::utf8::valid_utf8_split(bytes, at);
        let rest = bytes.subrange(at, bytes.len() as int);
        assert(rest[0] == 0x0a);
        assert(vstd::utf8::length_of_first_scalar(rest) == 1);
        let tail = vstd::utf8::pop_first_scalar(rest);
        assert(tail.len() > 0);
        assert(vstd::utf8::valid_utf8(tail));
        assert(vstd::utf8::valid_first_scalar(tail));
        assert(tail[0] == bytes[at + 1]);
        vstd::utf8::is_char_boundary_iff_is_leading_byte(bytes, at + 1);
    }
}

proof fn lemma_boundary_before(bytes: Seq<u8>, n: int)
    requires
        0 <= n <= bytes.len(),
        vstd::utf8::valid_utf8(bytes),
    ensures
        0 <= boundary_before(bytes, n) <= n,
        vstd::utf8::is_char_boundary(bytes, boundary_before(bytes, n)),
        forall|i: int|
            boundary_before(bytes, n) < i <= n ==> !#[trigger] vstd::utf8::is_char_boundary(
                bytes,
                i,
            ),
    decreases n,
{
    vstd::utf8::is_char_boundary_start_end_of_seq(bytes);
    if n > 0 && !vstd::utf8::is_char_boundary(bytes, n) {
        lemma_boundary_before(bytes, n - 1);
    }
}

proof fn lemma_last_line_break(bytes: Seq<u8>, n: int)
    requires
        0 <= n <= bytes.len(),
    ensures
        match last_line_break(bytes, n) {
            Some(at) => 0 <= at < n && bytes[at] == 0x0a && forall|i: int|
                at < i < n ==> #[trigger] bytes[i] != 0x0a,
            None => forall|i: int| 0 <= i < n ==> #[trigger] bytes[i] != 0x0a,
        },
    decreases n,
{
    if n > 0 && bytes[n - 1] != 0x0a {
        lemma_last_line_break(bytes, n - 1);
    }
}

/// The head of a text is the text itself if that is no longer than a mebibyte.
/// Otherwise it is a part from the start of the text that is no longer. It holds
/// every line that ends within that length, and if there is one, nothing else. If
/// there is none, no further character fits.
pub proof fn law_head_holds_whole_lines(text: Seq<char>)
    ensures
        ({
            let bytes = vstd::utf8::encode_utf8(text);
            let sample = head_sample(text);
            let kept = vstd::utf8::encode_utf8(sample).len();
            &&& sample.is_prefix_of(text)
            &&& bytes.len() <= 1_048_576 ==> sample == text
            &&& bytes.len() > 1_048_576 ==> {
                &&& kept <= 1_048_576
                &&& forall|i: int| 0 <= i < 1_048_576 && #[trigger] bytes[i] == 0x0a ==> i < kept
                &&& (exists|i: int| 0 <= i < 1_048_576 && #[trigger] bytes[i] == 0x0a)
                    ==> bytes[kept - 1] == 0x0a
                &&& (forall|i: int| 0 <= i < 1_048_576 ==> #[trigger] bytes[i] != 0x0a)
                    ==> forall|i: int|
                    kept < i <= 1_048_576 ==> !#[trigger] vstd::utf8::is_char_boundary(bytes, i)
            }
        }),
{
    let bytes = vstd::utf8::encode_utf8(text);
    vstd::utf8::encode_utf8_valid_utf8(text);
    vstd::utf8::encode_utf8_decode_utf8(text);
    vstd::utf8::is_char_boundary_start_end_of_seq(bytes);
    if bytes.len() <= 1_048_576 {
        assert(bytes.take(bytes.len() as int) == bytes);
    } else {
        let limit = 1_048_576int;
        let cut = boundary_before(bytes, limit);
        lemma_boundary_before(bytes, limit);
        lemma_last_line_break(bytes, cut);
        let end = head_end(bytes);
        match last_line_break(bytes, cut) {
            Some(at) => {
                lemma_boundary_behind_line_break(bytes, at);
            },
            None => {},
        }
        vstd::utf8::valid_utf8_split(bytes, end);
        vstd::utf8::decode_utf8_split(bytes, end);
        assert(bytes.take(end) =~= bytes.subrange(0, end));
        vstd::utf8::decode_utf8_encode_utf8(bytes.take(end));
        assert forall|i: int| 0 <= i < limit && #[trigger] bytes[i] == 0x0a implies i < end by {
            lemma_boundary_behind_line_break(bytes, i);
            assert(i + 1 <= cut);
        }
    }
}

} // verus!
