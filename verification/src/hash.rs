//! Content fingerprinting.
//!
//! A fingerprint is a 64-bit non-cryptographic hash of payload bytes, used
//! for duplicate detection and vault addressing. It is deterministic for
//! identical byte sequences and is never a security boundary.

use std::collections::hash_map::DefaultHasher;
use std::hash::Hasher;
use vstd::prelude::*;
use vstd::std_specs::hash::DefaultHasherAdditionalSpecFns;

verus! {

/// The fingerprint of a byte sequence: what `DefaultHasher` yields after the
/// bytes are written to a fresh hasher.
pub open spec fn fingerprint_of(bytes: Seq<u8>) -> u64 {
    DefaultHasher::spec_finish(seq![bytes])
}

/// Computes the 64-bit fingerprint of `data`. Deterministic: equal byte
/// sequences always yield equal fingerprints.
pub fn hash_data(data: &[u8]) -> (r: u64)
    ensures
        r == fingerprint_of(data@),
{
    let mut hasher = DefaultHasher::new();
    hasher.write(data);
    hasher.finish()
}

} // verus!
