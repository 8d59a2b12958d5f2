//! The symmetric cipher engine: authenticated encryption of byte payloads.
//!
//! A ciphertext is the nonce, followed by the payload masked with a key
//! stream, followed by a tag over nonce and masked payload. Key stream and tag
//! are both HMAC-SHA-256 codes under the one key, told apart by the first byte
//! of what is coded.

use crate::error::CoreError;
use crate::mac::{hmac, hmac_sha256};
use vstd::bytes::{spec_u64_to_le_bytes, u64_to_le_bytes};
use vstd::prelude::*;
use vstd::slice::slice_subrange;

verus! {

/// Number of bytes in a key.
pub const KEY_LEN: usize = 32;

/// Number of bytes in a nonce.
pub const NONCE_LEN: usize = 16;

/// Number of bytes in a tag.
pub const TAG_LEN: usize = 32;

/// Number of bytes by which a ciphertext is longer than its payload.
pub const OVERHEAD: usize = NONCE_LEN + TAG_LEN;

/// First byte of what is coded for a block of the key stream.
pub const STREAM_DOMAIN: u8 = 1;

/// First byte of what is coded for a tag.
pub const TAG_DOMAIN: u8 = 2;

/// Block `index` of the key stream for `nonce`: the code of the stream
/// domain byte, the nonce and the index as eight little-endian bytes.
pub open spec fn stream_block(key: Seq<u8>, nonce: Seq<u8>, index: u64) -> Seq<u8> {
    hmac(key, seq![STREAM_DOMAIN] + nonce + spec_u64_to_le_bytes(index))
}

/// Byte `at` of the key stream for `nonce`.
pub open spec fn stream_byte(key: Seq<u8>, nonce: Seq<u8>, at: int) -> u8 {
    stream_block(key, nonce, (at / 32) as u64)[at % 32]
}

/// `data` with every byte combined with the key stream by exclusive or.
/// Masking twice under one key and nonce gives `data` back.
pub open spec fn masked(key: Seq<u8>, nonce: Seq<u8>, data: Seq<u8>) -> Seq<u8> {
    Seq::new(data.len(), |at: int| data[at] ^ stream_byte(key, nonce, at))
}

/// The tag over `nonce` and the masked payload `body`.
pub open spec fn tag_for(key: Seq<u8>, nonce: Seq<u8>, body: Seq<u8>) -> Seq<u8> {
    hmac(key, seq![TAG_DOMAIN] + nonce + body)
}

/// The ciphertext of `plaintext` under `key` with `nonce`.
pub open spec fn sealed(key: Seq<u8>, nonce: Seq<u8>, plaintext: Seq<u8>) -> Seq<u8> {
    let body = masked(key, nonce, plaintext);
    nonce + body + tag_for(key, nonce, body)
}

/// What sealing under `key` with `nonce` returns: the ciphertext, or
/// `Encryption` for a key that has not `KEY_LEN` bytes.
pub open spec fn seal_outcome(key: Seq<u8>, nonce: Seq<u8>, plaintext: Seq<u8>) -> Result<
    Seq<u8>,
    CoreError,
> {
    if key.len() != KEY_LEN {
        Err(CoreError::Encryption)
    } else {
        Ok(sealed(key, nonce, plaintext))
    }
}

/// The nonce at the front of a ciphertext.
pub open spec fn nonce_part(ciphertext: Seq<u8>) -> Seq<u8> {
    ciphertext.subrange(0, NONCE_LEN as int)
}

/// The masked payload of a ciphertext, between nonce and tag.
pub open spec fn body_part(ciphertext: Seq<u8>) -> Seq<u8> {
    ciphertext.subrange(NONCE_LEN as int, ciphertext.len() - TAG_LEN)
}

/// The tag at the end of a ciphertext.
pub open spec fn tag_part(ciphertext: Seq<u8>) -> Seq<u8> {
    ciphertext.subrange(ciphertext.len() - TAG_LEN, ciphertext.len() as int)
}

/// What opening `ciphertext` under `key` returns. A key that has not
/// `KEY_LEN` bytes is refused first, then a ciphertext with no room for nonce
/// and tag, then one whose tag is not the tag of its nonce and body. Only a
/// ciphertext that passes all three is unmasked.
pub open spec fn open_outcome(key: Seq<u8>, ciphertext: Seq<u8>) -> Result<Seq<u8>, CoreError> {
    if key.len() != KEY_LEN {
        Err(CoreError::Encryption)
    } else if ciphertext.len() < OVERHEAD {
        Err(CoreError::MalformedInput)
    } else if tag_part(ciphertext) != tag_for(key, nonce_part(ciphertext), body_part(ciphertext)) {
        Err(CoreError::Authentication)
    } else {
        Ok(masked(key, nonce_part(ciphertext), body_part(ciphertext)))
    }
}

/// The view of what an operation of the engine returned.
pub open spec fn outcome_view(r: Result<Vec<u8>, CoreError>) -> Result<Seq<u8>, CoreError> {
    match r {
        Ok(bytes) => Ok(bytes@),
        Err(e) => Err(e),
    }
}

/// Exclusive or with one byte is its own inverse.
proof fn lemma_xor_twice(a: u8, k: u8)
    ensures
        (a ^ k) ^ k == a,
{
    assert((a ^ k) ^ k == a) by (bit_vector);
}

/// Masking is its own inverse.
pub proof fn lemma_masked_twice(key: Seq<u8>, nonce: Seq<u8>, data: Seq<u8>)
    ensures
        masked(key, nonce, masked(key, nonce, data)) == data,
{
    let once = masked(key, nonce, data);
    assert forall|at: int| 0 <= at < data.len() implies masked(key, nonce, once)[at]
        == data[at] by {
        lemma_xor_twice(data[at], stream_byte(key, nonce, at));
    }
    assert(masked(key, nonce, once) =~= data);
}

/// The three parts of a ciphertext that `sealed` has put together are the
/// parts it was made of.
pub proof fn lemma_sealed_parts(key: Seq<u8>, nonce: Seq<u8>, plaintext: Seq<u8>)
    requires
        nonce.len() == NONCE_LEN,
    ensures
        sealed(key, nonce, plaintext).len() == plaintext.len() + OVERHEAD,
        nonce_part(sealed(key, nonce, plaintext)) == nonce,
        body_part(sealed(key, nonce, plaintext)) == masked(key, nonce, plaintext),
        tag_part(sealed(key, nonce, plaintext)) == tag_for(
            key,
            nonce,
            masked(key, nonce, plaintext),
        ),
{
    let body = masked(key, nonce, plaintext);
    let tag = tag_for(key, nonce, body);
    let ciphertext = sealed(key, nonce, plaintext);
    assert(tag.len() == TAG_LEN);
    assert(nonce_part(ciphertext) =~= nonce);
    assert(body_part(ciphertext) =~= body);
    assert(tag_part(ciphertext) =~= tag);
}

/// Round trip: what was sealed under a key of `KEY_LEN` bytes, with any nonce
/// of `NONCE_LEN` bytes, opens under that key to the payload that was sealed.
pub proof fn lemma_open_inverts_seal(key: Seq<u8>, nonce: Seq<u8>, plaintext: Seq<u8>)
    requires
        key.len() == KEY_LEN,
        nonce.len() == NONCE_LEN,
    ensures
        open_outcome(key, sealed(key, nonce, plaintext)) == Ok::<Seq<u8>, CoreError>(plaintext),
{
    lemma_sealed_parts(key, nonce, plaintext);
    lemma_masked_twice(key, nonce, plaintext);
}

/// Whatever opens was sealed: a ciphertext that opens under a key to a
/// payload is the very ciphertext that sealing this payload under this key
/// gives with the nonce at its front. So a ciphertext that was altered opens
/// only if the alteration is itself such a sealing.
pub proof fn lemma_opened_was_sealed(key: Seq<u8>, ciphertext: Seq<u8>, plaintext: Seq<u8>)
    requires
        open_outcome(key, ciphertext) == Ok::<Seq<u8>, CoreError>(plaintext),
    ensures
        ciphertext == sealed(key, nonce_part(ciphertext), plaintext),
{
    let nonce = nonce_part(ciphertext);
    let body = body_part(ciphertext);
    lemma_masked_twice(key, nonce, body);
    assert(ciphertext =~= nonce + body + tag_part(ciphertext));
}

/// An alteration that keeps the length of a ciphertext that opens is never
/// taken for bad usage: the altered ciphertext opens, or it fails with
/// `Authentication`.
pub proof fn lemma_alteration_is_tampering(key: Seq<u8>, ciphertext: Seq<u8>, altered: Seq<u8>)
    requires
        open_outcome(key, ciphertext) is Ok,
        altered.len() == ciphertext.len(),
    ensures
        open_outcome(key, altered) is Ok || open_outcome(key, altered) == Err::<
            Seq<u8>,
            CoreError,
        >(CoreError::Authentication),
{
}

/// A change to the tag is always detected: where two ciphertexts agree in
/// nonce and body and differ in their tags, and one of them opens under a
/// key, the other fails under that key with `Authentication`.
pub proof fn lemma_altered_tag_rejected(key: Seq<u8>, ciphertext: Seq<u8>, altered: Seq<u8>)
    requires
        open_outcome(key, ciphertext) is Ok,
        altered.len() == ciphertext.len(),
        nonce_part(altered) == nonce_part(ciphertext),
        body_part(altered) == body_part(ciphertext),
        tag_part(altered) != tag_part(ciphertext),
    ensures
        open_outcome(key, altered) == Err::<Seq<u8>, CoreError>(CoreError::Authentication),
{
}

/// Ciphertexts made with different nonces differ, whatever the keys and
/// payloads.
pub proof fn lemma_nonce_separates(
    key_a: Seq<u8>,
    nonce_a: Seq<u8>,
    plaintext_a: Seq<u8>,
    key_b: Seq<u8>,
    nonce_b: Seq<u8>,
    plaintext_b: Seq<u8>,
)
    requires
        nonce_a.len() == NONCE_LEN,
        nonce_b.len() == NONCE_LEN,
        nonce_a != nonce_b,
    ensures
        sealed(key_a, nonce_a, plaintext_a) != sealed(key_b, nonce_b, plaintext_b),
{
    lemma_sealed_parts(key_a, nonce_a, plaintext_a);
    lemma_sealed_parts(key_b, nonce_b, plaintext_b);
}

/// Computes block `index` of the key stream.
fn stream_block_of(key: &[u8], nonce: &[u8; 16], index: u64) -> (block: [u8; 32])
    ensures
        block@ == stream_block(key@, nonce@, index),
{
    let mut input: Vec<u8> = Vec::new();
    input.push(STREAM_DOMAIN);
    input.extend_from_slice(nonce);
    let counter = u64_to_le_bytes(index);
    input.extend_from_slice(counter.as_slice());
    assert(input@ =~= seq![STREAM_DOMAIN] + nonce@ + spec_u64_to_le_bytes(index));
    hmac_sha256(key, input.as_slice())
}

/// Combines `data` with the key stream for `nonce`.
fn mask_bytes(key: &[u8], nonce: &[u8; 16], data: &[u8]) -> (out: Vec<u8>)
    ensures
        out@ == masked(key@, nonce@, data@),
{
    let mut out: Vec<u8> = Vec::new();
    let mut at: usize = 0;
    let mut index: u64 = 0;
    while at < data.len()
        invariant
            at <= data@.len(),
            at % 32 == 0 || at == data@.len(),
            at < data@.len() ==> index == at / 32,
            out@.len() == at,
            forall|i: int| 0 <= i < at ==> out@[i] == data@[i] ^ stream_byte(key@, nonce@, i),
        decreases data@.len() - at,
    {
        let block = stream_block_of(key, nonce, index);
        let mut offset: usize = 0;
        while offset < 32 && at < data.len()
            invariant
                offset <= 32,
                at <= data@.len(),
                at == index * 32 + offset,
                block@ == stream_block(key@, nonce@, index),
                out@.len() == at,
                forall|i: int| 0 <= i < at ==> out@[i] == data@[i] ^ stream_byte(key@, nonce@, i),
            decreases 32 - offset,
        {
            out.push(data[at] ^ block[offset]);
            at += 1;
            offset += 1;
        }
        if at < data.len() {
            index += 1;
        }
    }
    assert(out@ =~= masked(key@, nonce@, data@));
    out
}

/// Computes the tag over `nonce` and `body`.
fn tag_of(key: &[u8], nonce: &[u8], body: &[u8]) -> (tag: [u8; 32])
    ensures
        tag@ == tag_for(key@, nonce@, body@),
{
    let mut input: Vec<u8> = Vec::new();
    input.push(TAG_DOMAIN);
    input.extend_from_slice(nonce);
    input.extend_from_slice(body);
    assert(input@ =~= seq![TAG_DOMAIN] + nonce@ + body@);
    hmac_sha256(key, input.as_slice())
}

/// Tells whether two byte strings are equal. Strings of one length are
/// compared in a time that does not depend on where they differ.
pub fn same_bytes(a: &[u8], b: &[u8]) -> (same: bool)
    ensures
        same == (a@ == b@),
{
    if a.len() != b.len() {
        return false;
    }
    let mut differences: u8 = 0;
    let mut i: usize = 0;
    while i < a.len()
        invariant
            i <= a@.len(),
            a@.len() == b@.len(),
            differences == 0 <==> forall|j: int| 0 <= j < i ==> a@[j] == b@[j],
        decreases a@.len() - i,
    {
        let x = a[i];
        let y = b[i];
        let ghost before = differences;
        differences = differences | (x ^ y);
        assert((before | (x ^ y)) == 0 <==> (before == 0 && x == y)) by (bit_vector);
        i += 1;
    }
    assert(differences == 0 ==> a@ =~= b@);
    differences == 0
}

/// Seals `plaintext` under `key` with the nonce given. The same key, nonce and
/// payload always give the same ciphertext, so a nonce must never be used
/// twice with one key: `encrypt` draws a fresh one for each call.
pub fn encrypt_with_nonce(key: &[u8], nonce: &[u8; 16], plaintext: &[u8]) -> (r: Result<
    Vec<u8>,
    CoreError,
>)
    ensures
        outcome_view(r) == seal_outcome(key@, nonce@, plaintext@),
{
    if key.len() != KEY_LEN {
        return Err(CoreError::Encryption);
    }
    let body = mask_bytes(key, nonce, plaintext);
    let tag = tag_of(key, nonce, body.as_slice());
    let mut ciphertext: Vec<u8> = Vec::new();
    ciphertext.extend_from_slice(nonce);
    ciphertext.extend_from_slice(body.as_slice());
    ciphertext.extend_from_slice(&tag);
    assert(ciphertext@ =~= sealed(key@, nonce@, plaintext@));
    Ok(ciphertext)
}

/// Opens `ciphertext` under `key`: checks the tag and, only if it matches,
/// unmasks the payload. Nothing of the payload is returned with an error.
pub fn decrypt(key: &[u8], ciphertext: &[u8]) -> (r: Result<Vec<u8>, CoreError>)
    ensures
        outcome_view(r) == open_outcome(key@, ciphertext@),
{
    if key.len() != KEY_LEN {
        return Err(CoreError::Encryption);
    }
    if ciphertext.len() < OVERHEAD {
        return Err(CoreError::MalformedInput);
    }
    let body_end = ciphertext.len() - TAG_LEN;
    let nonce_bytes = slice_subrange(ciphertext, 0, NONCE_LEN);
    let body = slice_subrange(ciphertext, NONCE_LEN, body_end);
    let tag = slice_subrange(ciphertext, body_end, ciphertext.len());
    let expected = tag_of(key, nonce_bytes, body);
    if !same_bytes(tag, &expected) {
        return Err(CoreError::Authentication);
    }
    let mut nonce: [u8; 16] = [0u8; 16];
    let mut i: usize = 0;
    while i < NONCE_LEN
        invariant
            i <= NONCE_LEN,
            nonce_bytes@.len() == NONCE_LEN,
            forall|j: int| 0 <= j < i ==> nonce@[j] == nonce_bytes@[j],
        decreases NONCE_LEN - i,
    {
        nonce[i] = nonce_bytes[i];
        i += 1;
    }
    assert(nonce@ =~= nonce_part(ciphertext@));
    Ok(mask_bytes(key, &nonce, body))
}


/// `getrandom::Error`: why the operating system supplied no random bytes.
#[verifier::external_type_specification]
#[verifier::external_body]
pub struct ExEntropyFailure(getrandom::Error);

/// Calls `getrandom::getrandom` on a buffer of `NONCE_LEN` bytes, which fills
/// it from the operating system's generator or reports why it could not.
/// Nothing is claimed of the bytes drawn, nor of when drawing fails.
#[verifier::external_body]
fn draw_nonce() -> (r: Result<[u8; 16], getrandom::Error>) {
    let mut nonce = [0u8; 16];
    match getrandom::getrandom(&mut nonce) {
        Ok(()) => Ok(nonce),
        Err(e) => Err(e),
    }
}

/// Seals `plaintext` under `key` with a nonce drawn afresh from the operating
/// system's generator. A key that has not `KEY_LEN` bytes is refused with
/// `Encryption` before anything is drawn. With a key of that length, the
/// result is the ciphertext for the nonce that stands at its front, which
/// opens under `key` to `plaintext`, or `Entropy` where no nonce could be
/// drawn.
pub fn encrypt(key: &[u8], plaintext: &[u8]) -> (r: Result<Vec<u8>, CoreError>)
    ensures
        key@.len() != KEY_LEN ==> r == Err::<Vec<u8>, CoreError>(CoreError::Encryption),
        key@.len() == KEY_LEN ==> match r {
            Ok(ciphertext) => {
                &&& ciphertext@ == sealed(key@, nonce_part(ciphertext@), plaintext@)
                &&& open_outcome(key@, ciphertext@) == Ok::<Seq<u8>, CoreError>(plaintext@)
            },
            Err(e) => e == CoreError::Entropy,
        },
{
    if key.len() != KEY_LEN {
        return Err(CoreError::Encryption);
    }
    match draw_nonce() {
        Ok(nonce) => {
            proof {
                lemma_sealed_parts(key@, nonce@, plaintext@);
                lemma_open_inverts_seal(key@, nonce@, plaintext@);
            }
            encrypt_with_nonce(key, &nonce, plaintext)
        },
        Err(_) => Err(CoreError::Entropy),
    }
}

} // verus!
