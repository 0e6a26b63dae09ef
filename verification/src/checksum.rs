//! Checksums of byte strings.
use sha2::Digest;
use vstd::prelude::*;

verus! {

/// The CRC-32 checksum of a byte string, as `crc32fast` computes it.
pub uninterp spec fn crc32(bytes: Seq<u8>) -> u32;

/// The SHA-256 digest of a byte string, as `sha2` computes it.
pub uninterp spec fn sha256(bytes: Seq<u8>) -> [u8; 32];

/// Calls `crc32fast::hash`. Claimed of it: the checksum is a function of the bytes alone.
#[verifier::external_body]
pub(crate) fn crc32_of(bytes: &[u8]) -> (crc: u32)
    ensures
        crc == crc32(bytes@),
{
    crc32fast::hash(bytes)
}

/// Calls `sha2::Sha256::digest`. Claimed of it: the digest is a function of the bytes alone.
#[verifier::external_body]
pub(crate) fn sha256_of(bytes: &[u8]) -> (digest: [u8; 32])
    ensures
        digest == sha256(bytes@),
{
    sha2::Sha256::digest(bytes).into()
}

} // verus!
