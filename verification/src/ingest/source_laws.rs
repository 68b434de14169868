//! What the name and the first bytes of a file say about it.

use vstd::prelude::*;
use crate::ingest::encoding;
use crate::ingest::encoding::{EncodingInference, EncodingSource, TextEncoding};
use crate::ingest::infer::Confidence;
use crate::ingest::path;
use crate::ingest::registry;
use crate::text;

verus! {

/// A mark at the start of a file tells its encoding, whatever comes behind it.
pub proof fn law_marks_tell_the_encoding(rest: Seq<u8>)
    ensures
        encoding::inferred_encoding(seq![0xefu8, 0xbb, 0xbf] + rest) == (EncodingInference {
            encoding: TextEncoding::Utf8,
            source: EncodingSource::Bom,
        }),
        encoding::inferred_encoding(seq![0xffu8, 0xfe] + rest) == (EncodingInference {
            encoding: TextEncoding::Utf16Le,
            source: EncodingSource::Bom,
        }),
        encoding::inferred_encoding(seq![0xfeu8, 0xff] + rest) == (EncodingInference {
            encoding: TextEncoding::Utf16Be,
            source: EncodingSource::Bom,
        }),
        encoding::without_utf8_bom(seq![0xefu8, 0xbb, 0xbf] + rest) == rest,
{
    let marked = seq![0xefu8, 0xbb, 0xbf] + rest;
    assert(marked[0] == 0xef && marked[1] == 0xbb && marked[2] == 0xbf);
    assert(marked.skip(3) =~= rest);
    let little = seq![0xffu8, 0xfe] + rest;
    assert(little[0] == 0xff && little[1] == 0xfe);
    let big = seq![0xfeu8, 0xff] + rest;
    assert(big[0] == 0xfe && big[1] == 0xff);
}

/// A file without a mark is taken for UTF-8 if no more than one in a hundred of
/// the bytes of its first mebibyte is out of place. Nothing is taken off it.
pub proof fn law_one_fault_in_a_hundred_is_borne(bytes: Seq<u8>)
    requires
        bytes.len() < 2 || !(bytes[0] == 0xff && bytes[1] == 0xfe),
        bytes.len() < 2 || !(bytes[0] == 0xfe && bytes[1] == 0xff),
        bytes.len() < 3 || !(bytes[0] == 0xef && bytes[1] == 0xbb && bytes[2] == 0xbf),
    ensures
        ({
            let first = bytes.take(
                if bytes.len() < 1_048_576 {
                    bytes.len() as int
                } else {
                    1_048_576
                },
            );
            let inferred = encoding::inferred_encoding(bytes);
            &&& inferred.source == EncodingSource::Heuristic
            &&& 100 * encoding::invalid_bytes(first) <= first.len() ==> inferred.encoding
                == TextEncoding::Utf8 && inferred.confidence_spec() == Confidence::High
            &&& 100 * encoding::invalid_bytes(first) > first.len() ==> inferred.encoding
                == encoding::supported_encoding_spec(encoding::guessed_encoding_name(first))
            &&& encoding::without_utf8_bom(bytes) == bytes
        }),
{
    assert(bytes.take(bytes.len() as int) =~= bytes);
    if bytes.len() == 1_048_576 {
        assert(bytes.take(1_048_576) =~= bytes);
    }
}

/// An encoding is found again by its registered name, and what is not one of the
/// four is read as the Latin code page of Windows.
pub proof fn law_encodings_have_their_names(known: TextEncoding, name: Seq<char>)
    ensures
        encoding::supported_encoding_spec(encoding::registered_name(known)) == known,
        encoding::supported_encoding_spec("UTF-8"@) == TextEncoding::Utf8,
        encoding::supported_encoding_spec("UTF-16LE"@) == TextEncoding::Utf16Le,
        encoding::supported_encoding_spec("UTF-16BE"@) == TextEncoding::Utf16Be,
        name != "UTF-8"@ && name != "UTF-16LE"@ && name != "UTF-16BE"@
            ==> encoding::supported_encoding_spec(name) == TextEncoding::Windows1252,
        text::equal_ignoring_case(known.label_spec(), encoding::registered_name(known)),
{
    reveal_strlit("UTF-8");
    reveal_strlit("UTF-16LE");
    reveal_strlit("UTF-16BE");
    reveal_strlit("windows-1252");
    reveal_strlit("utf-8");
    reveal_strlit("utf-16le");
    reveal_strlit("utf-16be");
    assert("UTF-8"@.len() == 5);
    assert("UTF-16LE"@[6] == 'L');
    assert("UTF-16BE"@[6] == 'B');
    assert("windows-1252"@.len() == 12);
}

/// A text without a certain character.
pub open spec fn lacks(s: Seq<char>, c: char) -> bool {
    forall|i: int| 0 <= i < s.len() ==> #[trigger] s[i] != c
}

proof fn lemma_behind_last(before: Seq<char>, c: char, after: Seq<char>, n: int)
    requires
        lacks(after, c),
        before.len() + 1 <= n <= before.len() + 1 + after.len(),
    ensures
        path::behind_last(before + seq![c] + after, c, n) == before.len() + 1,
    decreases n,
{
    let s = before + seq![c] + after;
    if n > before.len() + 1 {
        assert(s[n - 1] == after[n - 1 - before.len() - 1]);
        lemma_behind_last(before, c, after, n - 1);
    } else {
        assert(s[n - 1] == c);
    }
}

proof fn lemma_nothing_behind(s: Seq<char>, c: char, n: int)
    requires
        lacks(s, c),
        0 <= n <= s.len(),
    ensures
        path::behind_last(s, c, n) == 0,
    decreases n,
{
    if n > 0 {
        lemma_nothing_behind(s, c, n - 1);
    }
}

/// A path to a file: a directory with a slash behind it, or none, and a name.
pub open spec fn path_to(directory: Option<Seq<char>>, name: Seq<char>) -> Seq<char> {
    match directory {
        Some(directory) => directory + seq!['/'] + name,
        None => name,
    }
}

/// The last part of a path is the name behind the last slash.
pub proof fn law_name_is_behind_the_last_slash(directory: Option<Seq<char>>, name: Seq<char>)
    requires
        name.len() > 0,
        lacks(name, '/'),
        name != seq!['.'],
    ensures
        path::last_component(path_to(directory, name)) == name,
{
    let s = path_to(directory, name);
    let n = s.len() as int;
    let last = name[name.len() - 1];
    assert(s[n - 1] == last);
    assert(last != '/');
    if name.len() > 1 {
        assert(s[n - 2] == name[name.len() - 2]);
        assert(name[name.len() - 2] != '/');
    } else if last == '.' {
        assert(name =~= seq!['.']);
    }
    assert(path::tidy_len(s, n) == n);
    match directory {
        Some(directory) => {
            lemma_behind_last(directory, '/', name, n);
            assert(s.subrange(directory.len() as int + 1, n) =~= name);
        },
        None => {
            lemma_nothing_behind(name, '/', n);
            assert(s.subrange(0, n) =~= name);
        },
    }
}

/// The extension of a file is what stands behind the last dot of its name, in
/// whatever directory it is.
pub proof fn law_extension_is_behind_the_last_dot(
    directory: Option<Seq<char>>,
    stem: Seq<char>,
    extension: Seq<char>,
)
    requires
        stem.len() > 0,
        lacks(stem, '/'),
        lacks(extension, '/'),
        lacks(extension, '.'),
        extension.len() > 0 || stem != seq!['.'],
    ensures
        path::extension_of(path_to(directory, stem + seq!['.'] + extension)) == Some(extension),
{
    let name = stem + seq!['.'] + extension;
    assert forall|i: int| 0 <= i < name.len() implies #[trigger] name[i] != '/' by {
        if i < stem.len() {
            assert(name[i] == stem[i]);
        } else if i > stem.len() {
            assert(name[i] == extension[i - stem.len() - 1]);
        }
    }
    law_name_is_behind_the_last_slash(directory, name);
    lemma_behind_last(stem, '.', extension, name.len() as int);
    assert(name.skip(stem.len() as int + 1) =~= extension);
    if name == seq!['.', '.'] {
        assert(stem.len() == 1);
        assert(stem[0] == name[0]);
        assert(stem =~= seq!['.']);
    }
}

/// A name without a dot has no extension, nor has one whose only dot is its first
/// character.
pub proof fn law_hidden_files_have_no_extension(directory: Option<Seq<char>>, name: Seq<char>)
    requires
        name.len() > 0,
        lacks(name, '/'),
        lacks(name, '.'),
    ensures
        path::extension_of(path_to(directory, name)) is None,
        path::extension_of(path_to(directory, seq!['.'] + name)) is None,
{
    assert(name[0] != '.');
    law_name_is_behind_the_last_slash(directory, name);
    lemma_nothing_behind(name, '.', name.len() as int);
    let hidden = seq!['.'] + name;
    assert forall|i: int| 0 <= i < hidden.len() implies #[trigger] hidden[i] != '/' by {
        if i > 0 {
            assert(hidden[i] == name[i - 1]);
        }
    }
    assert(hidden[1] == name[0]);
    law_name_is_behind_the_last_slash(directory, hidden);
    assert(hidden =~= Seq::empty() + seq!['.'] + name);
    lemma_behind_last(Seq::empty(), '.', name, hidden.len() as int);
}

/// Files of three extensions are read as delimited text, in either case of the
/// letters, and no others.
pub proof fn law_delimited_text_has_one_of_three_extensions(
    directory: Option<Seq<char>>,
    stem: Seq<char>,
    extension: Seq<char>,
)
    requires
        stem.len() > 0,
        lacks(stem, '/'),
        lacks(extension, '/'),
        lacks(extension, '.'),
        extension.len() > 0 || stem != seq!['.'],
    ensures
        registry::is_delimited_text(path_to(directory, stem + seq!['.'] + extension)) <==> {
            ||| text::equal_ignoring_case(extension, seq!['c', 's', 'v'])
            ||| text::equal_ignoring_case(extension, seq!['t', 's', 'v'])
            ||| text::equal_ignoring_case(extension, seq!['t', 'x', 't'])
        },
{
    law_extension_is_behind_the_last_dot(directory, stem, extension);
    reveal_strlit("csv");
    reveal_strlit("tsv");
    reveal_strlit("txt");
    assert("csv"@ =~= seq!['c', 's', 'v']);
    assert("tsv"@ =~= seq!['t', 's', 'v']);
    assert("txt"@ =~= seq!['t', 'x', 't']);
}

/// The bytes that are out of place are counted one by one: those of the first fault
/// and those behind it. A fault that runs to the end counts to the end.
pub proof fn law_faulty_bytes_are_counted(bytes: Seq<u8>)
    ensures
        encoding::utf8_fault(bytes) is None ==> encoding::invalid_bytes(bytes) == 0,
        encoding::utf8_fault(bytes) matches Some((at, Some(len))) ==> (0 < at + len <= bytes.len()
            ==> encoding::invalid_bytes(bytes) == len + encoding::invalid_bytes(
            bytes.skip((at + len) as int),
        )),
        encoding::utf8_fault(bytes) matches Some((at, None)) ==> (at < bytes.len()
            && encoding::utf8_fault(Seq::empty()) is None ==> encoding::invalid_bytes(bytes)
            == bytes.len() - at),
{
    if encoding::utf8_fault(bytes) matches Some((at, None)) && at < bytes.len() {
        let rest = bytes.skip(bytes.len() as int);
        assert(rest =~= Seq::empty());
        if encoding::utf8_fault(Seq::empty()) is None {
            assert(encoding::invalid_bytes(rest) == 0);
        }
    }
}

} // verus!
