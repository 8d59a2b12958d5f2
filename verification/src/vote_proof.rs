//! The vote proof generator: attestations that bind a voter identity to an
//! encrypted ballot without showing the vote.
//!
//! A proof is made and checked under the key that sealed the ballot. Its
//! commitment is a code over the vote and the ciphertext; the proof bytes
//! repeat the commitment and add a code over version, commitment and
//! identity. Codes are HMAC-SHA-256, so neither tells the vote to anyone
//! without the key, and both have the same length whatever the vote.

use crate::error::CoreError;
use crate::mac::{hmac, hmac_sha256, lemma_hmac_len};
use crate::cipher::same_bytes;
use vstd::prelude::*;
use vstd::slice::slice_subrange;
use vstd::string::StringSliceAdditionalSpecFns;

verus! {

/// The version of the record layout that this library writes and accepts.
pub const PROOF_VERSION: u8 = 1;

/// Number of bytes in a commitment.
pub const COMMITMENT_LEN: usize = 32;

/// Number of bytes in the proof bytes of a record.
pub const PROOF_LEN: usize = 64;

/// First byte of what is coded for a commitment.
pub const COMMIT_DOMAIN: u8 = 3;

/// First byte of what is coded for an attestation.
pub const ATTEST_DOMAIN: u8 = 4;

/// The byte that stands for a vote: 1 for yes, 0 for no.
pub open spec fn vote_byte(vote: bool) -> u8 {
    if vote {
        1u8
    } else {
        0u8
    }
}

/// The vote that a byte stands for, or `MalformedInput` for a byte that
/// stands for none.
pub open spec fn vote_of_byte(byte: u8) -> Result<bool, CoreError> {
    if byte == 1 {
        Ok(true)
    } else if byte == 0 {
        Ok(false)
    } else {
        Err(CoreError::MalformedInput)
    }
}

/// Encodes a vote as one byte.
pub fn encode_vote(vote: bool) -> (byte: u8)
    ensures
        byte == vote_byte(vote),
        vote_of_byte(byte) == Ok::<bool, CoreError>(vote),
{
    if vote {
        1
    } else {
        0
    }
}

/// Decodes a vote, refusing every byte that is not the encoding of one.
pub fn decode_vote(byte: u8) -> (r: Result<bool, CoreError>)
    ensures
        r == vote_of_byte(byte),
{
    if byte == 1 {
        Ok(true)
    } else if byte == 0 {
        Ok(false)
    } else {
        Err(CoreError::MalformedInput)
    }
}

/// A record that attests: the ballot behind `ciphertext_commitment` was cast
/// by `identity_reference`. It does not hold the vote.
#[derive(Clone, Debug, PartialEq, Eq)]
pub struct VoteProof {
    /// The version of the record layout.
    pub version: u8,
    /// The commitment once more, followed by the attestation.
    pub proof_bytes: Vec<u8>,
    /// The identifier of the voter.
    pub identity_reference: String,
    /// The commitment to the vote and its ciphertext.
    pub ciphertext_commitment: Vec<u8>,
}

/// What a record holds.
pub struct VoteProofView {
    pub version: u8,
    pub proof_bytes: Seq<u8>,
    pub identity_reference: Seq<char>,
    pub ciphertext_commitment: Seq<u8>,
}

impl View for VoteProof {
    type V = VoteProofView;

    open spec fn view(&self) -> VoteProofView {
        VoteProofView {
            version: self.version,
            proof_bytes: self.proof_bytes@,
            identity_reference: self.identity_reference@,
            ciphertext_commitment: self.ciphertext_commitment@,
        }
    }
}

/// An identity reference can be attested if it is not empty.
pub open spec fn identity_well_formed(identity: Seq<char>) -> bool {
    identity.len() > 0
}

/// The commitment to `vote` and `ciphertext` under `key`: the code of the
/// commitment domain byte, the vote byte and the ciphertext.
pub open spec fn commitment(key: Seq<u8>, vote: bool, ciphertext: Seq<u8>) -> Seq<u8> {
    hmac(key, seq![COMMIT_DOMAIN, vote_byte(vote)] + ciphertext)
}

/// The attestation of `identity` for `committed` under `key`: the code of the
/// attestation domain byte, the version, the commitment and the identity's
/// UTF-8 bytes.
pub open spec fn attestation(
    key: Seq<u8>,
    version: u8,
    committed: Seq<u8>,
    identity: Seq<char>,
) -> Seq<u8> {
    hmac(key, seq![ATTEST_DOMAIN, version] + committed + vstd::utf8::encode_utf8(identity))
}

/// The record that is generated for `identity`, `vote` and `ciphertext`
/// under `key`.
pub open spec fn proof_for(
    key: Seq<u8>,
    identity: Seq<char>,
    vote: bool,
    ciphertext: Seq<u8>,
) -> VoteProofView {
    let committed = commitment(key, vote, ciphertext);
    VoteProofView {
        version: PROOF_VERSION,
        proof_bytes: committed + attestation(key, PROOF_VERSION, committed, identity),
        identity_reference: identity,
        ciphertext_commitment: committed,
    }
}

/// What generating a proof returns: the record, or `ProofGeneration` for an
/// identity reference that is not well formed.
pub open spec fn proof_outcome(
    key: Seq<u8>,
    identity: Seq<char>,
    vote: bool,
    ciphertext: Seq<u8>,
) -> Result<VoteProofView, CoreError> {
    if identity_well_formed(identity) {
        Ok(proof_for(key, identity, vote, ciphertext))
    } else {
        Err(CoreError::ProofGeneration)
    }
}

/// A record is valid under `key` if it has the version and the lengths of a
/// generated record, names a well-formed identity, repeats its commitment at
/// the front of its proof bytes, and ends in the attestation of its identity
/// for its commitment.
pub open spec fn proof_valid(key: Seq<u8>, record: VoteProofView) -> bool {
    &&& record.version == PROOF_VERSION
    &&& identity_well_formed(record.identity_reference)
    &&& record.ciphertext_commitment.len() == COMMITMENT_LEN
    &&& record.proof_bytes.len() == PROOF_LEN
    &&& record.proof_bytes.subrange(0, COMMITMENT_LEN as int) == record.ciphertext_commitment
    &&& record.proof_bytes.subrange(COMMITMENT_LEN as int, PROOF_LEN as int) == attestation(
        key,
        record.version,
        record.ciphertext_commitment,
        record.identity_reference,
    )
}

/// A record is bound to `ciphertext` under `key` if it is valid and its
/// commitment is the commitment to that ciphertext with one of the two
/// votes. Which of the two is neither asked nor told.
pub open spec fn proof_binds(key: Seq<u8>, record: VoteProofView, ciphertext: Seq<u8>) -> bool {
    &&& proof_valid(key, record)
    &&& (record.ciphertext_commitment == commitment(key, true, ciphertext)
        || record.ciphertext_commitment == commitment(key, false, ciphertext))
}

/// The view of what generating a proof returned.
pub open spec fn proof_outcome_view(r: Result<VoteProof, CoreError>) -> Result<
    VoteProofView,
    CoreError,
> {
    match r {
        Ok(record) => Ok(record@),
        Err(e) => Err(e),
    }
}

/// A generated record has the same lengths whatever the vote.
pub proof fn lemma_proof_size_fixed(
    key: Seq<u8>,
    identity: Seq<char>,
    vote: bool,
    ciphertext: Seq<u8>,
)
    ensures
        proof_for(key, identity, vote, ciphertext).proof_bytes.len() == PROOF_LEN,
        proof_for(key, identity, vote, ciphertext).ciphertext_commitment.len() == COMMITMENT_LEN,
{
    let committed = commitment(key, vote, ciphertext);
    lemma_hmac_len(key, seq![COMMIT_DOMAIN, vote_byte(vote)] + ciphertext);
    lemma_hmac_len(
        key,
        seq![ATTEST_DOMAIN, PROOF_VERSION] + committed + vstd::utf8::encode_utf8(identity),
    );
}

/// Soundness: the record generated for a well-formed identity, any vote and
/// any ciphertext is valid under the key it was generated with.
pub proof fn lemma_generated_proof_valid(
    key: Seq<u8>,
    identity: Seq<char>,
    vote: bool,
    ciphertext: Seq<u8>,
)
    requires
        identity_well_formed(identity),
    ensures
        proof_valid(key, proof_for(key, identity, vote, ciphertext)),
{
    lemma_proof_size_fixed(key, identity, vote, ciphertext);
    let record = proof_for(key, identity, vote, ciphertext);
    assert(record.proof_bytes.subrange(0, COMMITMENT_LEN as int)
        =~= record.ciphertext_commitment);
    assert(record.proof_bytes.subrange(COMMITMENT_LEN as int, PROOF_LEN as int) =~= attestation(
        key,
        PROOF_VERSION,
        record.ciphertext_commitment,
        identity,
    ));
}

/// Binding: the record generated for a well-formed identity is bound to the
/// ciphertext it was generated for.
pub proof fn lemma_generated_proof_binds(
    key: Seq<u8>,
    identity: Seq<char>,
    vote: bool,
    ciphertext: Seq<u8>,
)
    requires
        identity_well_formed(identity),
    ensures
        proof_binds(key, proof_for(key, identity, vote, ciphertext), ciphertext),
{
    lemma_generated_proof_valid(key, identity, vote, ciphertext);
}

/// Non-malleability of the commitment: a valid record whose commitment alone
/// is replaced by any other bytes is not valid, under any key.
pub proof fn lemma_altered_commitment_rejected(
    key: Seq<u8>,
    other_key: Seq<u8>,
    record: VoteProofView,
    altered: Seq<u8>,
)
    requires
        proof_valid(key, record),
        altered != record.ciphertext_commitment,
    ensures
        !proof_valid(other_key, VoteProofView { ciphertext_commitment: altered, ..record }),
{
}

/// Non-malleability of the proof bytes: a valid record whose proof bytes
/// alone are replaced by any other bytes is not valid under the same key.
pub proof fn lemma_altered_proof_bytes_rejected(
    key: Seq<u8>,
    record: VoteProofView,
    altered: Seq<u8>,
)
    requires
        proof_valid(key, record),
        altered != record.proof_bytes,
    ensures
        !proof_valid(key, VoteProofView { proof_bytes: altered, ..record }),
{
    if altered.len() == PROOF_LEN {
        let cut = COMMITMENT_LEN as int;
        let end = PROOF_LEN as int;
        if altered.subrange(0, cut) == record.proof_bytes.subrange(0, cut) && altered.subrange(
            cut,
            end,
        ) == record.proof_bytes.subrange(cut, end) {
            assert forall|i: int| 0 <= i < end implies altered[i] == record.proof_bytes[i] by {
                if i < cut {
                    assert(altered[i] == altered.subrange(0, cut)[i]);
                    assert(record.proof_bytes[i] == record.proof_bytes.subrange(0, cut)[i]);
                } else {
                    assert(altered[i] == altered.subrange(cut, end)[i - cut]);
                    assert(record.proof_bytes[i] == record.proof_bytes.subrange(cut, end)[i - cut]);
                }
            }
            assert(altered =~= record.proof_bytes);
        }
    }
}

/// Generates the record that attests `identity_ref` for the ballot
/// `ciphertext` with the vote `vote`. It fails only for an identity reference
/// that is not well formed, with `ProofGeneration`; a key of any length is
/// accepted.
pub fn generate_proof(key: &[u8], identity_ref: &str, vote: bool, ciphertext: &[u8]) -> (r: Result<
    VoteProof,
    CoreError,
>)
    ensures
        proof_outcome_view(r) == proof_outcome(key@, identity_ref@, vote, ciphertext@),
        r matches Ok(record) ==> proof_binds(key@, record@, ciphertext@),
{
    if identity_ref.is_empty() {
        return Err(CoreError::ProofGeneration);
    }
    let committed = commit(key, vote, ciphertext);
    let attested = attest(key, PROOF_VERSION, &committed, identity_ref);
    let mut proof_bytes: Vec<u8> = Vec::new();
    proof_bytes.extend_from_slice(&committed);
    proof_bytes.extend_from_slice(&attested);
    let mut ciphertext_commitment: Vec<u8> = Vec::new();
    ciphertext_commitment.extend_from_slice(&committed);
    let record = VoteProof {
        version: PROOF_VERSION,
        proof_bytes,
        identity_reference: identity_ref.to_owned(),
        ciphertext_commitment,
    };
    proof {
        let expected = proof_for(key@, identity_ref@, vote, ciphertext@);
        assert(record@.proof_bytes =~= expected.proof_bytes);
        assert(record@.ciphertext_commitment =~= expected.ciphertext_commitment);
        lemma_generated_proof_valid(key@, identity_ref@, vote, ciphertext@);
    }
    Ok(record)
}

/// Computes the commitment to `vote` and `ciphertext`.
fn commit(key: &[u8], vote: bool, ciphertext: &[u8]) -> (code: [u8; 32])
    ensures
        code@ == commitment(key@, vote, ciphertext@),
{
    let mut input: Vec<u8> = Vec::new();
    input.push(COMMIT_DOMAIN);
    input.push(encode_vote(vote));
    input.extend_from_slice(ciphertext);
    assert(input@ =~= seq![COMMIT_DOMAIN, vote_byte(vote)] + ciphertext@);
    hmac_sha256(key, input.as_slice())
}

/// Computes the attestation of `identity` for `committed`.
fn attest(key: &[u8], version: u8, committed: &[u8], identity: &str) -> (code: [u8; 32])
    ensures
        code@ == attestation(key@, version, committed@, identity@),
{
    let mut input: Vec<u8> = Vec::new();
    input.push(ATTEST_DOMAIN);
    input.push(version);
    input.extend_from_slice(committed);
    input.extend_from_slice(identity.as_bytes());
    assert(input@ =~= seq![ATTEST_DOMAIN, version] + committed@ + identity.spec_bytes());
    hmac_sha256(key, input.as_slice())
}

/// Checks a record under `key`. It never fails: a record that is malformed
/// or was altered is answered with `false`. The vote is neither needed nor
/// learned.
pub fn verify_proof(key: &[u8], record: &VoteProof) -> (valid: bool)
    ensures
        valid == proof_valid(key@, record@),
{
    if record.version != PROOF_VERSION {
        return false;
    }
    if record.identity_reference.as_str().is_empty() {
        return false;
    }
    if record.ciphertext_commitment.len() != COMMITMENT_LEN {
        return false;
    }
    if record.proof_bytes.len() != PROOF_LEN {
        return false;
    }
    let repeated = slice_subrange(record.proof_bytes.as_slice(), 0, COMMITMENT_LEN);
    let attested = slice_subrange(record.proof_bytes.as_slice(), COMMITMENT_LEN, PROOF_LEN);
    let expected = attest(
        key,
        record.version,
        record.ciphertext_commitment.as_slice(),
        record.identity_reference.as_str(),
    );
    let commitment_repeated = same_bytes(repeated, record.ciphertext_commitment.as_slice());
    let attestation_matches = same_bytes(attested, &expected);
    commitment_repeated && attestation_matches
}

/// Checks that a record is valid under `key` and belongs to `ciphertext`:
/// that its commitment is the commitment to these very bytes. The ballot is
/// not opened, and both votes are tried whatever the outcome of the first.
pub fn verify_binding(key: &[u8], record: &VoteProof, ciphertext: &[u8]) -> (bound: bool)
    ensures
        bound == proof_binds(key@, record@, ciphertext@),
{
    let valid = verify_proof(key, record);
    let for_yes = commit(key, true, ciphertext);
    let for_no = commit(key, false, ciphertext);
    let is_yes = same_bytes(record.ciphertext_commitment.as_slice(), &for_yes);
    let is_no = same_bytes(record.ciphertext_commitment.as_slice(), &for_no);
    valid && (is_yes || is_no)
}

} // verus!
