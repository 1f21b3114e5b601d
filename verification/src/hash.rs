//! Content fingerprinting for deduplication.
//!
//! A passage's fingerprint must be a fixed, specified algorithm (not
//! language-default hashing), so that re-ingestion against an existing store
//! stays idempotent across process restarts and reimplementations. The
//! algorithm used is seedless XXH3, 64 bits.

use vstd::prelude::*;

verus! {

/// The 64-bit XXH3 fingerprint of a text: a pure function of the text's
/// UTF-8 bytes, the same in every process and on every machine.
pub uninterp spec fn xxh3_of(text: Seq<char>) -> u64;

/// Deterministic, high-dispersion, non-cryptographic fingerprint of a
/// passage text, used as the deduplication key.
///
/// Relies on `twox_hash::XxHash3_64::oneshot`: the seedless XXH3 hash of
/// the given bytes, computed with the algorithm's default secret, hence a
/// pure function of the text.
#[verifier::external_body]
pub fn compute_hash(text: &str) -> (r: u64)
    ensures
        r == xxh3_of(text@),
{
    twox_hash::XxHash3_64::oneshot(text.as_bytes())
}

} // verus!
