//! Content digests: the cryptographic hash that detects byte-identical
//! uploads. Collision probability is treated as zero, so one digest
//! stands for one byte content.

use vstd::prelude::*;

use sha2::Digest;

verus! {

/// The lowercase-hex SHA-256 digest of a byte sequence: a fixed function
/// of the bytes alone.
pub uninterp spec fn sha256_hex_of(bytes: Seq<u8>) -> Seq<char>;

/// Relies on `sha2::Sha256` (together with the lower-hex rendering of its
/// 32-byte output): the digest depends on the input bytes alone and is
/// rendered as 64 hex digits.
#[verifier::external_body]
pub fn calculate_file_hash(data: &[u8]) -> (r: String)
    ensures
        r@ == sha256_hex_of(data@),
        r@.len() == 64,
{
    let mut hasher = sha2::Sha256::new();
    hasher.update(data);
    format!("{:x}", hasher.finalize())
}

} // verus!
