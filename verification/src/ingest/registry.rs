//! Which reader a path is for.

use vstd::prelude::*;
use crate::error::{GlydeError, Result};
use crate::ingest::path;
use crate::ingest::path::extension;
use crate::text;
use crate::text::{chars_of, spells};

verus! {

/// A format that can be read.
pub trait Reader: Send + Sync {
    /// The name of the format. A reader outside verified code need not tell.
    closed spec fn name(&self) -> Seq<char> {
        arbitrary()
    }

    /// The reader claims the path. A reader outside verified code need not tell.
    closed spec fn claims(&self, path: Seq<char>) -> bool {
        arbitrary()
    }

    /// The name of the format, as it is logged and shown.
    fn format_name(&self) -> (name: &'static str)
        ensures
            name@ == self.name(),
    ;

    /// Whether the reader claims the path.
    fn recognizes(&self, path: &str) -> (claimed: bool)
        ensures
            claimed == self.claims(path@),
    ;
}

/// The reader of delimited text: `.csv`, `.tsv` and `.txt`.
pub struct CsvReader;

/// The path is that of a delimited text file, whatever the case of its
/// extension.
pub open spec fn is_delimited_text(path: Seq<char>) -> bool {
    path::extension_of(path) matches Some(extension) && (text::equal_ignoring_case(
        extension,
        "csv"@,
    ) || text::equal_ignoring_case(extension, "tsv"@) || text::equal_ignoring_case(
        extension,
        "txt"@,
    ))
}

impl Reader for CsvReader {
    open spec fn name(&self) -> Seq<char> {
        "csv"@
    }

    open spec fn claims(&self, path: Seq<char>) -> bool {
        is_delimited_text(path)
    }

    fn format_name(&self) -> (name: &'static str) {
        "csv"
    }

    fn recognizes(&self, path: &str) -> (claimed: bool) {
        match extension(path) {
            Some(found) => {
                let chars: Vec<char> = chars_of(found.as_str());
                spells(chars.as_slice(), "csv") || spells(chars.as_slice(), "tsv") || spells(
                    chars.as_slice(),
                    "txt",
                )
            },
            None => false,
        }
    }
}

/// A reader that has been registered.
pub struct Registered<R> {
    pub reader: R,
}

/// A registered reader of any format.
pub type AnyReader = Registered<Box<dyn Reader>>;

fn registered<R>(reader: R) -> (registered: Registered<R>)
    ensures
        registered.reader == reader,
{
    Registered { reader }
}

/// The reader of delimited text, as one of many.
fn csv_reader() -> (registered: AnyReader)
    ensures
        registered.reader.name() == "csv"@,
        forall|path: Seq<char>| #[trigger]
            registered.reader.claims(path) == is_delimited_text(path),
{
    Registered { reader: Box::new(CsvReader) }
}

/// Which of the first `n` readers claims the path, the earliest one where
/// several do.
pub open spec fn first_claim(readers: Seq<AnyReader>, path: Seq<char>, n: int) -> Option<int>
    decreases n,
{
    if n <= 0 {
        None
    } else {
        match first_claim(readers, path, n - 1) {
            Some(i) => Some(i),
            None => if readers[n - 1].reader.claims(path) {
                Some(n - 1)
            } else {
                None
            },
        }
    }
}

/// A reader that is found claims the path, and none before it does. Where none
/// is found, none claims it.
proof fn lemma_first_claim(readers: Seq<AnyReader>, path: Seq<char>, n: int)
    requires
        0 <= n <= readers.len(),
    ensures
        match first_claim(readers, path, n) {
            Some(i) => {
                &&& 0 <= i < n
                &&& readers[i].reader.claims(path)
                &&& forall|j: int| 0 <= j < i ==> !#[trigger] readers[j].reader.claims(path)
            },
            None => forall|j: int| 0 <= j < n ==> !#[trigger] readers[j].reader.claims(path),
        },
    decreases n,
{
    if n > 0 {
        lemma_first_claim(readers, path, n - 1);
    }
}

proof fn lemma_claims_of_a_prefix(
    readers: Seq<AnyReader>,
    added: AnyReader,
    path: Seq<char>,
    n: int,
)
    requires
        0 <= n <= readers.len(),
    ensures
        first_claim(readers.push(added), path, n) == first_claim(readers, path, n),
    decreases n,
{
    if n > 0 {
        lemma_claims_of_a_prefix(readers, added, path, n - 1);
        assert(readers.push(added)[n - 1] == readers[n - 1]);
    }
}

/// Readers that were registered earlier win. One more reader changes nothing
/// for a path that is claimed already; any other path it gets if it claims it.
/// A reader that is found always claims the path.
pub proof fn law_earlier_readers_win(readers: Seq<AnyReader>, added: AnyReader, path: Seq<char>)
    ensures
        ({
            let more = readers.push(added);
            first_claim(more, path, more.len() as int) == (match first_claim(
                readers,
                path,
                readers.len() as int,
            ) {
                Some(i) => Some(i),
                None => if added.reader.claims(path) {
                    Some(readers.len() as int)
                } else {
                    None
                },
            })
        }),
        first_claim(readers, path, readers.len() as int) matches Some(i) ==> {
            &&& 0 <= i < readers.len()
            &&& readers[i].reader.claims(path)
            &&& readers.push(added)[i] == readers[i]
        },
{
    let n = readers.len() as int;
    lemma_first_claim(readers, path, n);
    lemma_claims_of_a_prefix(readers, added, path, n);
    assert(readers.push(added)[n] == added);
}

/// The readers there are, tried in the order in which they were registered.
pub struct Registry {
    readers: Vec<AnyReader>,
}

impl Registry {
    /// The readers in their order.
    pub closed spec fn readers(&self) -> Seq<AnyReader> {
        self.readers@
    }

    /// The registry of the formats that are read.
    pub fn default_registry() -> (registry: Registry)
        ensures
            registry.readers().len() == 1,
            registry.readers()[0].reader.name() == "csv"@,
            forall|path: Seq<char>| #[trigger]
                registry.readers()[0].reader.claims(path) == is_delimited_text(path),
    {
        let mut readers: Vec<AnyReader> = Vec::new();
        readers.push(csv_reader());
        Registry { readers }
    }

    /// Adds a reader that is tried after the others.
    pub fn register(&mut self, reader: Box<dyn Reader>)
        ensures
            final(self).readers().len() == old(self).readers().len() + 1,
            final(self).readers() == old(self).readers().push(
                final(self).readers()[old(self).readers().len() as int],
            ),
            final(self).readers()[old(self).readers().len() as int].reader.name() == reader.name(),
            forall|path: Seq<char>| #[trigger]
                final(self).readers()[old(self).readers().len() as int].reader.claims(path)
                    == reader.claims(path),
    {
        let one = registered(reader);
        self.readers.push(one);
    }

    /// The first reader that claims the path.
    pub fn find(&self, path: &str) -> (reader: Option<&Box<dyn Reader>>)
        ensures
            match (reader, first_claim(self.readers(), path@, self.readers().len() as int)) {
                (Some(reader), Some(i)) => {
                    &&& 0 <= i < self.readers().len()
                    &&& *reader == self.readers()[i].reader
                    &&& self.readers()[i].reader.claims(path@)
                },
                (None, None) => true,
                _ => false,
            },
    {
        let mut i: usize = 0;
        while i < self.readers.len()
            invariant
                i <= self.readers@.len(),
                first_claim(self.readers(), path@, i as int) is None,
            decreases self.readers@.len() - i,
        {
            if self.readers[i].reader.recognizes(path) {
                assert(first_claim(self.readers(), path@, i + 1) == Some(i as int));
                proof {
                    lemma_claim_stays(self.readers(), path@, i + 1, self.readers().len() as int);
                }
                return Some(&self.readers[i].reader);
            }
            i = i + 1;
        }
        None
    }
}

proof fn lemma_claim_stays(readers: Seq<AnyReader>, path: Seq<char>, n: int, m: int)
    requires
        0 <= n <= m,
        first_claim(readers, path, n) is Some,
    ensures
        first_claim(readers, path, m) == first_claim(readers, path, n),
    decreases m - n,
{
    if n < m {
        lemma_claim_stays(readers, path, n, m - 1);
    }
}

impl Default for Registry {
    fn default() -> (registry: Registry)
        ensures
            registry.readers().len() == 1,
            registry.readers()[0].reader.name() == "csv"@,
            forall|path: Seq<char>| #[trigger]
                registry.readers()[0].reader.claims(path) == is_delimited_text(path),
    {
        Registry::default_registry()
    }
}

/// The name of the format that a path is read as.
pub fn open(path: &str) -> (name: Result<&'static str>)
    ensures
        match name {
            Ok(name) => is_delimited_text(path@) && name@ == "csv"@,
            Err(error) => !is_delimited_text(path@) && (error matches
                GlydeError::UnrecognizedFormat { path: named } && named@ == path@),
        },
{
    let registry: Registry = Registry::default_registry();
    match registry.find(path) {
        Some(reader) => Ok(reader.format_name()),
        None => {
            assert(first_claim(registry.readers(), path@, 0) is None);
            assert(!registry.readers()[0].reader.claims(path@));
            Err(GlydeError::UnrecognizedFormat { path: path.to_owned() })
        },
    }
}

} // verus!
