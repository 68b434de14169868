//! What the user has settled about a file.

use vstd::prelude::*;
use std::hash::Hash;
use std::hash::Hasher;
use crate::index::level0::CacheKey;
use crate::ingest::infer::{DecimalSeparator, Delimiter};
use crate::time::TimestampFormat;

verus! {

/// Corrections of what would be inferred. Each that is given takes the place
/// of the inference and is certain; each that is not leaves it alone.
#[derive(Debug, Clone, Copy, PartialEq, Eq, Hash, Structural)]
pub struct IngestOverrides {
    pub delimiter: Option<Delimiter>,
    pub decimal_separator: Option<DecimalSeparator>,
    pub timestamp_format: Option<TimestampFormat>,
}

impl IngestOverrides {
    /// No correction at all.
    pub open spec fn none_spec() -> IngestOverrides {
        IngestOverrides { delimiter: None, decimal_separator: None, timestamp_format: None }
    }
}

impl Default for IngestOverrides {
    fn default() -> (overrides: IngestOverrides)
        ensures
            overrides == IngestOverrides::none_spec(),
    {
        IngestOverrides { delimiter: None, decimal_separator: None, timestamp_format: None }
    }
}

/// Hashes corrections by `std::collections::hash_map::DefaultHasher`. Its
/// algorithm is not specified, so nothing is claimed of the result.
#[verifier::external_body]
fn overrides_signature(overrides: IngestOverrides) -> (signature: u64) {
    let mut hasher = std::collections::hash_map::DefaultHasher::new();
    overrides.hash(&mut hasher);
    hasher.finish()
}

/// The cache key of a file that is read under the given corrections, whose
/// signature is given. A file that is read without any keeps the key that it
/// has by itself.
pub fn signed_key(key: CacheKey, overrides: IngestOverrides, signature: u64) -> (signed: CacheKey)
    ensures
        signed == (if overrides == IngestOverrides::none_spec() {
            key
        } else {
            CacheKey { overrides_signature: signature, ..key }
        }),
{
    if overrides.delimiter.is_none() && overrides.decimal_separator.is_none()
        && overrides.timestamp_format.is_none() {
        key
    } else {
        key.with_overrides_signature(signature)
    }
}

/// The cache key of a file that is read under the given corrections. Which
/// signature they get is up to the hash.
pub fn corrected_key(key: CacheKey, overrides: IngestOverrides) -> (corrected: CacheKey)
    ensures
        corrected == (CacheKey { overrides_signature: corrected.overrides_signature, ..key }),
        overrides == IngestOverrides::none_spec() ==> corrected == key,
{
    signed_key(key, overrides, overrides_signature(overrides))
}

} // verus!
