//! Blob checksums: SHA-256 digests rendered as hex strings.

use vstd::prelude::*;

verus! {

/// The SHA-256 digest of a byte sequence, rendered as lowercase hex.
/// The digest is a pure function of the input bytes, so it can be given a
/// name even though writing it out is out of the question.
pub uninterp spec fn sha256_hex_of(data: Seq<u8>) -> Seq<char>;

/// Relies on sha2::Sha256 (the digest depends on the hashed bytes alone) and
/// hex::encode (two hex characters per digest byte, so a 32-byte digest
/// becomes 64 characters).
#[verifier::external_body]
pub(crate) fn calculate_sha256(data: &[u8]) -> (r: String)
    ensures
        r@ == sha256_hex_of(data@),
        r@.len() == 64,
{
    let mut hasher = <sha2::Sha256 as sha2::Digest>::new();
    sha2::Digest::update(&mut hasher, data);
    hex::encode(sha2::Digest::finalize(hasher))
}

/// Whether `checksum` is exactly the SHA-256 hex digest of `data`.
pub open spec fn checksum_ok(data: Seq<u8>, checksum: Seq<char>) -> bool {
    sha256_hex_of(data) == checksum
}

/// The naive-transfer law: a blob sent alongside its own digest always
/// passes the checksum gate, so the payload a validator accepts from a
/// faithful naive transfer is bit-identical to the blob the proposer read.
pub proof fn lemma_naive_round_trip(data: Seq<u8>)
    ensures
        checksum_ok(data, sha256_hex_of(data)),
{
}

/// Recomputes the digest of `data` and compares it against a declared
/// checksum: the integrity gate applied to received payloads.
pub fn checksum_matches(data: &[u8], checksum: &String) -> (ok: bool)
    ensures
        ok == checksum_ok(data@, checksum@),
{
    let computed = calculate_sha256(data);
    computed.eq(checksum)
}

} // verus!
