//! HMAC over SHA-256, the keyed function behind the cipher and the attestations.

use crate::digest::{digest, sha256};
use vstd::prelude::*;

verus! {

/// Number of bytes in a block of SHA-256.
pub const BLOCK_LEN: usize = 64;

/// Number of bytes in a code.
pub const MAC_LEN: usize = 32;

/// The byte that the key block is combined with for the inner digest.
pub const INNER_PAD: u8 = 0x36;

/// The byte that the key block is combined with for the outer digest.
pub const OUTER_PAD: u8 = 0x5c;

/// The key as one block: a key longer than a block is replaced by its digest,
/// and what is shorter than a block is filled up with zero bytes.
pub open spec fn key_block(key: Seq<u8>) -> Seq<u8> {
    let short = if key.len() > BLOCK_LEN {
        sha256(key)@
    } else {
        key
    };
    Seq::new(
        BLOCK_LEN as nat,
        |i: int|
            if i < short.len() {
                short[i]
            } else {
                0u8
            },
    )
}

/// The key block with every byte combined with `pad` by exclusive or.
pub open spec fn padded_key(key: Seq<u8>, pad: u8) -> Seq<u8> {
    Seq::new(BLOCK_LEN as nat, |i: int| key_block(key)[i] ^ pad)
}

/// The code of `msg` under `key`: the digest of the outer padded key followed
/// by the digest of the inner padded key followed by `msg`.
pub open spec fn hmac(key: Seq<u8>, msg: Seq<u8>) -> Seq<u8> {
    sha256(padded_key(key, OUTER_PAD) + sha256(padded_key(key, INNER_PAD) + msg)@)@
}

/// Every code has `MAC_LEN` bytes.
pub proof fn lemma_hmac_len(key: Seq<u8>, msg: Seq<u8>)
    ensures
        hmac(key, msg).len() == MAC_LEN,
{
}

/// Computes the key block.
fn key_block_of(key: &[u8]) -> (block: Vec<u8>)
    ensures
        block@ == key_block(key@),
{
    let mut block: Vec<u8> = Vec::new();
    if key.len() > BLOCK_LEN {
        let hashed = digest(key);
        block.extend_from_slice(&hashed);
        assert(block@ =~= sha256(key@)@);
    } else {
        block.extend_from_slice(key);
        assert(block@ =~= key@);
    }
    let ghost short = block@;
    while block.len() < BLOCK_LEN
        invariant
            short.len() <= block@.len() <= BLOCK_LEN,
            forall|i: int| 0 <= i < short.len() ==> block@[i] == short[i],
            forall|i: int| short.len() <= i < block@.len() ==> block@[i] == 0u8,
        decreases BLOCK_LEN - block@.len(),
    {
        block.push(0u8);
    }
    assert(block@ =~= key_block(key@));
    block
}

/// Combines the key block of `key` with `pad`.
fn padded_key_of(block: &Vec<u8>, pad: u8, Ghost(key): Ghost<Seq<u8>>) -> (out: Vec<u8>)
    requires
        block@ == key_block(key),
    ensures
        out@ == padded_key(key, pad),
{
    let mut out: Vec<u8> = Vec::new();
    let mut i: usize = 0;
    while i < BLOCK_LEN
        invariant
            i <= BLOCK_LEN,
            block@ == key_block(key),
            out@.len() == i,
            forall|j: int| 0 <= j < i ==> out@[j] == key_block(key)[j] ^ pad,
        decreases BLOCK_LEN - i,
    {
        out.push(block[i] ^ pad);
        i += 1;
    }
    assert(out@ =~= padded_key(key, pad));
    out
}

/// Computes the HMAC-SHA-256 code of `msg` under `key`. A key of any length
/// is accepted.
pub fn hmac_sha256(key: &[u8], msg: &[u8]) -> (code: [u8; 32])
    ensures
        code@ == hmac(key@, msg@),
{
    let block = key_block_of(key);
    let mut inner_input = padded_key_of(&block, INNER_PAD, Ghost(key@));
    inner_input.extend_from_slice(msg);
    assert(inner_input@ =~= padded_key(key@, INNER_PAD) + msg@);
    let inner = digest(inner_input.as_slice());
    let mut outer_input = padded_key_of(&block, OUTER_PAD, Ghost(key@));
    outer_input.extend_from_slice(&inner);
    assert(outer_input@ =~= padded_key(key@, OUTER_PAD) + inner@);
    digest(outer_input.as_slice())
}

} // verus!
