//! SHA-256, computed by `solana_sdk`.

use vstd::prelude::*;

verus! {

/// Number of bytes in a digest.
pub const DIGEST_LEN: usize = 32;

/// The SHA-256 digest of `data`. Nothing is stated of it but that it is a
/// function of `data` with 32 bytes: no proof in this library rests on what
/// the digest of any given data is, nor on digests being hard to invert or
/// to collide.
pub uninterp spec fn sha256(data: Seq<u8>) -> [u8; 32];

/// Calls `solana_sdk::hash::hash`, which feeds `data` to SHA-256, and takes
/// the bytes of the `Hash` it returns with `to_bytes`. The contract claims
/// that these 32 bytes depend on `data` alone: they are what `sha256` names.
#[verifier::external_body]
pub(crate) fn digest(data: &[u8]) -> (out: [u8; 32])
    ensures
        out == sha256(data@),
{
    solana_sdk::hash::hash(data).to_bytes()
}

} // verus!
