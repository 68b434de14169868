//! Which text encoding the bytes of a file are in, and what they say.

use vstd::prelude::*;
use vstd::slice::slice_subrange;
use crate::ingest::infer::{Confidence, Ratio};
use crate::text;
use crate::text::{chars_of, is_text};

verus! {

/// How many leading bytes of a file the inference looks at.
pub const HEAD_SAMPLE_BYTES: usize = 1_048_576;

/// One of the encodings that are read.
#[derive(Debug, Clone, Copy, PartialEq, Eq, Structural)]
pub enum TextEncoding {
    Utf8,
    /// Also what a Latin-1 file is read as.
    Windows1252,
    Utf16Le,
    Utf16Be,
}

/// What an encoding was chosen by.
#[derive(Debug, Clone, Copy, PartialEq, Eq, Structural)]
pub enum EncodingSource {
    /// A byte-order mark.
    Bom,
    /// How the bytes look; there was no byte-order mark.
    Heuristic,
}

/// The encoding of a file and what it was chosen by.
#[derive(Debug, Clone, Copy, PartialEq, Eq, Structural)]
pub struct EncodingInference {
    pub encoding: TextEncoding,
    pub source: EncodingSource,
}

impl TextEncoding {
    /// The encoding's label in lower case.
    pub open spec fn label_spec(self) -> Seq<char> {
        match self {
            TextEncoding::Utf8 => "utf-8"@,
            TextEncoding::Windows1252 => "windows-1252"@,
            TextEncoding::Utf16Le => "utf-16le"@,
            TextEncoding::Utf16Be => "utf-16be"@,
        }
    }

    /// The encoding's label in lower case.
    pub fn label(self) -> (label: &'static str)
        ensures
            label@ == self.label_spec(),
    {
        match self {
            TextEncoding::Utf8 => "utf-8",
            TextEncoding::Windows1252 => "windows-1252",
            TextEncoding::Utf16Le => "utf-16le",
            TextEncoding::Utf16Be => "utf-16be",
        }
    }
}

impl EncodingInference {
    /// The label that is shown and logged, such as `utf-8`.
    pub fn label(&self) -> (label: String)
        ensures
            label@ == self.encoding.label_spec(),
    {
        self.encoding.label().to_owned()
    }

    /// How sure the inference is. A mark settles the encoding, and so does a
    /// sample that is UTF-8; a statistical guess does not.
    pub open spec fn confidence_spec(self) -> Confidence {
        if self.source == EncodingSource::Bom || self.encoding == TextEncoding::Utf8 {
            Confidence::High
        } else {
            Confidence::Low
        }
    }

    /// How sure the inference is.
    pub fn confidence(&self) -> (confidence: Confidence)
        ensures
            confidence == self.confidence_spec(),
    {
        if self.source == EncodingSource::Bom || self.encoding == TextEncoding::Utf8 {
            Confidence::High
        } else {
            Confidence::Low
        }
    }
}

/// The encoding that a leading byte-order mark stands for.
pub open spec fn bom_encoding(bytes: Seq<u8>) -> Option<TextEncoding> {
    if bytes.len() >= 3 && bytes[0] == 0xef && bytes[1] == 0xbb && bytes[2] == 0xbf {
        Some(TextEncoding::Utf8)
    } else if bytes.len() >= 2 && bytes[0] == 0xff && bytes[1] == 0xfe {
        Some(TextEncoding::Utf16Le)
    } else if bytes.len() >= 2 && bytes[0] == 0xfe && bytes[1] == 0xff {
        Some(TextEncoding::Utf16Be)
    } else {
        None
    }
}

/// The name under which `encoding_rs` knows an encoding.
pub open spec fn registered_name(encoding: TextEncoding) -> Seq<char> {
    match encoding {
        TextEncoding::Utf8 => "UTF-8"@,
        TextEncoding::Windows1252 => "windows-1252"@,
        TextEncoding::Utf16Le => "UTF-16LE"@,
        TextEncoding::Utf16Be => "UTF-16BE"@,
    }
}

/// The name of the encoding whose byte-order mark the bytes begin with, by
/// `encoding_rs::Encoding::for_bom` and `Encoding::name`: `EF BB BF` is UTF-8,
/// `FF FE` is UTF-16LE, `FE FF` is UTF-16BE, and there are no others.
#[verifier::external_body]
fn name_for_bom(bytes: &[u8]) -> (name: Option<&'static str>)
    ensures
        match (name, bom_encoding(bytes@)) {
            (Some(name), Some(encoding)) => name@ == registered_name(encoding),
            (None, None) => true,
            _ => false,
        },
{
    encoding_rs::Encoding::for_bom(bytes).map(|(encoding, _)| encoding.name())
}

/// The name of the encoding that `chardetng` guesses of a whole sample, UTF-8
/// not allowed.
pub uninterp spec fn guessed_encoding_name(bytes: Seq<u8>) -> Seq<char>;

/// Guesses an encoding by `chardetng::EncodingDetector`: the bytes are fed as
/// the whole of the input, and the guess is asked for with no top-level domain
/// and with UTF-8 ruled out. The guess depends on the bytes alone.
#[verifier::external_body]
fn guess_encoding_name(bytes: &[u8]) -> (name: &'static str)
    ensures
        name@ == guessed_encoding_name(bytes@),
{
    let mut detector = chardetng::EncodingDetector::new();
    detector.feed(bytes, true);
    detector.guess(None, false).name()
}

/// The first fault of bytes as UTF-8, as std's validation reports it: how many
/// bytes before it are valid, and the length of the faulty sequence, `None`
/// where the input ends within a sequence. `None` where there is no fault.
pub uninterp spec fn utf8_fault(bytes: Seq<u8>) -> Option<(nat, Option<nat>)>;

/// `at` is the largest index up to which the bytes are UTF-8.
pub open spec fn is_valid_up_to(bytes: Seq<u8>, at: int) -> bool {
    &&& 0 <= at < bytes.len()
    &&& vstd::utf8::valid_utf8(bytes.take(at))
    &&& forall|j: int| at < j <= bytes.len() ==> !vstd::utf8::valid_utf8(#[trigger] bytes.take(j))
}

/// A fault lies within the bytes.
pub open spec fn is_fault_of(bytes: Seq<u8>, fault: (nat, Option<nat>)) -> bool {
    &&& is_valid_up_to(bytes, fault.0 as int)
    &&& match fault.1 {
        Some(len) => 1 <= len <= 3 && fault.0 + len <= bytes.len(),
        None => bytes.len() - fault.0 <= 3,
    }
}

/// The fault that a failed validation reports, its numbers taken as integers.
pub open spec fn reported_fault(
    read: core::result::Result<&str, (usize, Option<usize>)>,
) -> Option<(nat, Option<nat>)> {
    match read {
        Ok(_) => None,
        Err((at, Some(len))) => Some((at as nat, Some(len as nat))),
        Err((at, None)) => Some((at as nat, None)),
    }
}

/// Reads bytes by `std::str::from_utf8`: the text whose bytes they are, where
/// they are UTF-8. Else the error tells by `Utf8Error::valid_up_to` the largest
/// index up to which they are and by `Utf8Error::error_len` the length, one to
/// three, of the faulty sequence there, or that the input ends one to three
/// bytes later. What comes back depends on the bytes alone.
#[verifier::external_body]
pub(crate) fn read_utf8(bytes: &[u8]) -> (read: core::result::Result<
    &str,
    (usize, Option<usize>),
>)
    ensures
        reported_fault(read) == utf8_fault(bytes@),
        read is Ok <==> vstd::utf8::valid_utf8(bytes@),
        read matches Ok(text) ==> vstd::utf8::encode_utf8(text@) == bytes@,
        read is Err ==> is_fault_of(bytes@, reported_fault(read).unwrap()),
{
    std::str::from_utf8(bytes).map_err(|e| (e.valid_up_to(), e.error_len()))
}

/// Where the first fault of `bytes` ends: the whole input where it is cut off.
pub open spec fn fault_end(bytes: Seq<u8>, fault: (nat, Option<nat>)) -> int {
    match fault.1 {
        Some(len) => (fault.0 + len) as int,
        None => bytes.len() as int,
    }
}

/// How many bytes belong to no valid UTF-8 sequence: the faulty sequence that
/// comes first, and those behind it.
pub open spec fn invalid_bytes(bytes: Seq<u8>) -> nat
    decreases bytes.len(),
{
    match utf8_fault(bytes) {
        Some(fault) if 0 < fault_end(bytes, fault) <= bytes.len() => {
            let end = fault_end(bytes, fault);
            ((end - fault.0) + invalid_bytes(bytes.skip(end))) as nat
        },
        _ => 0,
    }
}

/// How many of the bytes belong to no valid UTF-8 sequence.
pub fn utf8_invalid_byte_fraction(bytes: &[u8]) -> (fraction: Ratio)
    ensures
        fraction.part == invalid_bytes(bytes@),
        fraction.whole == bytes@.len(),
        vstd::utf8::valid_utf8(bytes@) ==> fraction.part == 0,
{
    let mut from: usize = 0;
    let mut invalid: usize = 0;
    let whole: usize = bytes.len();
    proof {
        assert(bytes@.skip(0) == bytes@);
    }
    while from < whole
        invariant
            whole == bytes@.len(),
            from <= whole,
            invalid <= from,
            invalid_bytes(bytes@) == invalid + invalid_bytes(bytes@.skip(from as int)),
            vstd::utf8::valid_utf8(bytes@) ==> from == 0 && invalid == 0,
        ensures
            invalid == invalid_bytes(bytes@),
            vstd::utf8::valid_utf8(bytes@) ==> invalid == 0,
        decreases whole - from,
    {
        let rest: &[u8] = slice_subrange(bytes, from, whole);
        assert(rest@ == bytes@.skip(from as int));
        assert(bytes@.skip(0) == bytes@);
        match read_utf8(rest) {
            Ok(_) => {
                break;
            },
            Err((at, len)) => {
                let end: usize = match len {
                    Some(len) => at + len,
                    None => rest.len(),
                };
                assert(rest@.skip(end as int) == bytes@.skip(from + end));
                invalid = invalid + (end - at);
                from = from + end;
            },
        }
    }
    proof {
        if from == whole {
            lemma_nothing_is_invalid(bytes@.skip(whole as int));
        }
    }
    Ratio { part: invalid, whole }
}

/// No bytes, no faults.
proof fn lemma_nothing_is_invalid(bytes: Seq<u8>)
    requires
        bytes.len() == 0,
    ensures
        invalid_bytes(bytes) == 0,
{
}

/// The encoding of a name, where it is one of those that are read, and else
/// Windows-1252.
pub open spec fn supported_encoding_spec(name: Seq<char>) -> TextEncoding {
    if name == "UTF-8"@ {
        TextEncoding::Utf8
    } else if name == "UTF-16LE"@ {
        TextEncoding::Utf16Le
    } else if name == "UTF-16BE"@ {
        TextEncoding::Utf16Be
    } else {
        TextEncoding::Windows1252
    }
}

/// The encoding of a name, where it is one of those that are read, and else
/// Windows-1252: a guess on a short sample can name an encoding that is never
/// meant.
pub fn supported_encoding(name: &str) -> (encoding: TextEncoding)
    ensures
        encoding == supported_encoding_spec(name@),
{
    let chars: Vec<char> = chars_of(name);
    if is_text(chars.as_slice(), "UTF-8") {
        TextEncoding::Utf8
    } else if is_text(chars.as_slice(), "UTF-16LE") {
        TextEncoding::Utf16Le
    } else if is_text(chars.as_slice(), "UTF-16BE") {
        TextEncoding::Utf16Be
    } else {
        TextEncoding::Windows1252
    }
}

/// A sample passes for UTF-8 with stray bytes in it: at most one byte in a
/// hundred belongs to no sequence.
pub open spec fn passes_for_utf8(bytes: Seq<u8>) -> bool {
    invalid_bytes(bytes) * 100 <= bytes.len()
}

/// The part of a file that the inference looks at.
pub open spec fn head(bytes: Seq<u8>) -> Seq<u8> {
    if bytes.len() <= HEAD_SAMPLE_BYTES {
        bytes
    } else {
        bytes.take(HEAD_SAMPLE_BYTES as int)
    }
}

/// The encoding of a file: what a byte-order mark says; else UTF-8 where the
/// head passes for it; else what the head is guessed to be.
pub open spec fn inferred_encoding(bytes: Seq<u8>) -> EncodingInference {
    match bom_encoding(bytes) {
        Some(encoding) => EncodingInference { encoding, source: EncodingSource::Bom },
        None => if passes_for_utf8(head(bytes)) {
            EncodingInference {
                encoding: TextEncoding::Utf8,
                source: EncodingSource::Heuristic,
            }
        } else {
            EncodingInference {
                encoding: supported_encoding_spec(guessed_encoding_name(head(bytes))),
                source: EncodingSource::Heuristic,
            }
        },
    }
}

/// Infers the encoding of a file from its first bytes. There always is an
/// answer.
pub fn detect_encoding(bytes: &[u8]) -> (inference: EncodingInference)
    ensures
        inference == inferred_encoding(bytes@),
        bom_encoding(bytes@) is None && vstd::utf8::valid_utf8(head(bytes@)) ==> inference.encoding
            == TextEncoding::Utf8,
{
    match name_for_bom(bytes) {
        Some(name) => {
            proof {
                lemma_registered_names();
            }
            return EncodingInference {
                encoding: supported_encoding(name),
                source: EncodingSource::Bom,
            };
        },
        None => {},
    }
    let end: usize = if bytes.len() <= HEAD_SAMPLE_BYTES {
        bytes.len()
    } else {
        HEAD_SAMPLE_BYTES
    };
    let sample: &[u8] = slice_subrange(bytes, 0, end);
    assert(sample@ == head(bytes@));
    let fraction: Ratio = utf8_invalid_byte_fraction(sample);
    if fraction.part <= fraction.whole / 100 {
        assert(passes_for_utf8(head(bytes@)));
        return EncodingInference {
            encoding: TextEncoding::Utf8,
            source: EncodingSource::Heuristic,
        };
    }
    assert(!passes_for_utf8(head(bytes@)));
    let name: &'static str = guess_encoding_name(sample);
    EncodingInference { encoding: supported_encoding(name), source: EncodingSource::Heuristic }
}

/// Each registered name is read as its own encoding.
proof fn lemma_registered_names()
    ensures
        forall|encoding: TextEncoding|
            supported_encoding_spec(#[trigger] registered_name(encoding)) == encoding,
{
    reveal_strlit("UTF-8");
    reveal_strlit("UTF-16LE");
    reveal_strlit("UTF-16BE");
    reveal_strlit("windows-1252");
    assert("UTF-16LE"@[6] == 'L');
    assert("UTF-16BE"@[6] == 'B');
    assert("UTF-8"@.len() == 5);
    assert("UTF-16LE"@.len() == 8);
    assert("UTF-16BE"@.len() == 8);
    assert("windows-1252"@.len() == 12);
    assert("UTF-16LE"@ != "UTF-16BE"@);
}

/// What bytes say in the encoding of a label, by `encoding_rs`.
pub uninterp spec fn decoded_text(bytes: Seq<u8>, label: Seq<char>) -> Seq<char>;

/// The bytes behind a UTF-8 byte-order mark, where there is one.
pub open spec fn without_utf8_bom(bytes: Seq<u8>) -> Seq<u8> {
    if bom_encoding(bytes) == Some(TextEncoding::Utf8) {
        bytes.skip(3)
    } else {
        bytes
    }
}

/// Decodes bytes by `encoding_rs::Encoding::for_label` and `Encoding::decode`,
/// which takes off a byte-order mark and puts U+FFFD for what it cannot read.
/// The text depends on the bytes and the label alone. Bytes that are UTF-8
/// throughout are the text's own bytes. `decode` works out a buffer's size
/// from the number of bytes and panics where that overflows.
#[verifier::external_body]
fn decode_by_label(bytes: &[u8], label: &str) -> (decoded: String)
    requires
        exists|encoding: TextEncoding| label@ == #[trigger] encoding.label_spec(),
        bytes@.len() <= usize::MAX / 8,
    ensures
        decoded@ == decoded_text(bytes@, label@),
        label@ == "utf-8"@ && vstd::utf8::valid_utf8(without_utf8_bom(bytes@)) ==> vstd::utf8::encode_utf8(decoded@)
            == without_utf8_bom(bytes@),
{
    let encoding = encoding_rs::Encoding::for_label(label.as_bytes()).unwrap();
    encoding.decode(bytes).0.into_owned()
}

/// Decodes a file under an inferred encoding. It never fails: what cannot be
/// read is replaced by U+FFFD.
pub fn decode(bytes: &[u8], inference: &EncodingInference) -> (decoded: String)
    requires
        bytes@.len() <= usize::MAX / 8,
    ensures
        decoded@ == decoded_text(bytes@, inference.encoding.label_spec()),
        inference.encoding == TextEncoding::Utf8 && vstd::utf8::valid_utf8(without_utf8_bom(bytes@))
            ==> vstd::utf8::encode_utf8(decoded@) == without_utf8_bom(bytes@),
{
    decode_by_label(bytes, inference.encoding.label())
}

} // verus!
