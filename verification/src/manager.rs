//! The manager: the one boundary through which a host application seals
//! data, casts votes and checks vote proofs.

use crate::cipher::{
    decrypt, encrypt, encrypt_with_nonce, lemma_open_inverts_seal, nonce_part, open_outcome,
    outcome_view, sealed, KEY_LEN, NONCE_LEN,
};
use crate::error::CoreError;
use crate::vote_proof::{
    encode_vote, generate_proof, identity_well_formed, lemma_generated_proof_binds, proof_binds,
    proof_for, proof_valid, verify_binding, verify_proof, vote_byte, VoteProof, VoteProofView,
};
use crate::wallet::{is_wallet_record, load_answer};
use std::sync::Arc;
use vstd::prelude::*;
use zeroize::Zeroize;

verus! {

/// Holds the key and offers the operations of the library. It is ready as
/// soon as it is made and changes no state afterwards, so that any number of
/// callers may use it at once.
pub struct SovereignManager {
    key: Vec<u8>,
}

/// A cast vote: the sealed ballot together with the proof that goes with it.
#[derive(Clone, Debug, PartialEq, Eq)]
pub struct SealedVote {
    /// The vote, sealed under the manager's key.
    pub ciphertext: Vec<u8>,
    /// The record that attests who cast the ballot.
    pub proof: VoteProof,
}

/// What a cast vote holds.
pub struct SealedVoteView {
    pub ciphertext: Seq<u8>,
    pub proof: VoteProofView,
}

impl View for SealedVote {
    type V = SealedVoteView;

    open spec fn view(&self) -> SealedVoteView {
        SealedVoteView { ciphertext: self.ciphertext@, proof: self.proof@ }
    }
}

/// The cast vote for `identity` and `vote` under `key` with `nonce`: the
/// one-byte encoding of the vote, sealed, and the record generated for that
/// ciphertext.
pub open spec fn vote_sealed(
    key: Seq<u8>,
    nonce: Seq<u8>,
    identity: Seq<char>,
    vote: bool,
) -> SealedVoteView {
    let ciphertext = sealed(key, nonce, seq![vote_byte(vote)]);
    SealedVoteView { ciphertext, proof: proof_for(key, identity, vote, ciphertext) }
}

/// What casting a vote returns. The identity reference is checked first and
/// refused with `ProofGeneration` if it is not well formed; then a key that
/// has not `KEY_LEN` bytes is refused with `Encryption`.
pub open spec fn cast_outcome(
    key: Seq<u8>,
    nonce: Seq<u8>,
    identity: Seq<char>,
    vote: bool,
) -> Result<SealedVoteView, CoreError> {
    if !identity_well_formed(identity) {
        Err(CoreError::ProofGeneration)
    } else if key.len() != KEY_LEN {
        Err(CoreError::Encryption)
    } else {
        Ok(vote_sealed(key, nonce, identity, vote))
    }
}

/// The view of what casting a vote returned.
pub open spec fn cast_outcome_view(r: Result<SealedVote, CoreError>) -> Result<
    SealedVoteView,
    CoreError,
> {
    match r {
        Ok(cast) => Ok(cast@),
        Err(e) => Err(e),
    }
}

/// A cast vote holds a valid proof that is bound to its ballot, and a ballot
/// that opens to the vote.
pub proof fn lemma_cast_vote_sound(key: Seq<u8>, nonce: Seq<u8>, identity: Seq<char>, vote: bool)
    requires
        key.len() == KEY_LEN,
        nonce.len() == NONCE_LEN,
        identity_well_formed(identity),
    ensures
        proof_valid(key, vote_sealed(key, nonce, identity, vote).proof),
        proof_binds(
            key,
            vote_sealed(key, nonce, identity, vote).proof,
            vote_sealed(key, nonce, identity, vote).ciphertext,
        ),
        open_outcome(key, vote_sealed(key, nonce, identity, vote).ciphertext) == Ok::<
            Seq<u8>,
            CoreError,
        >(seq![vote_byte(vote)]),
{
    let ciphertext = sealed(key, nonce, seq![vote_byte(vote)]);
    lemma_generated_proof_binds(key, identity, vote, ciphertext);
    lemma_open_inverts_seal(key, nonce, seq![vote_byte(vote)]);
}

/// Calls `zeroize` of the crate of that name on the bytes, which overwrites
/// them and the rest of their allocation with zeros, in writes that the
/// compiler may not leave out. It does not panic. Nothing is claimed of
/// what the vector holds afterwards.
#[verifier::external_body]
fn wipe(bytes: &mut Vec<u8>)
    opens_invariants none
    no_unwind
{
    bytes.zeroize();
}

impl Drop for SovereignManager {
    /// Overwrites the key with zeros before its memory is given back.
    fn drop(&mut self)
        opens_invariants none
        no_unwind
    {
        wipe(&mut self.key);
    }
}

impl SovereignManager {
    /// The key that the manager works with.
    pub closed spec fn key(&self) -> Seq<u8> {
        self.key@
    }

    /// Makes a manager that works with `key`. Any bytes are taken: a key
    /// that has not `KEY_LEN` bytes is refused when it is first used to seal
    /// or open.
    pub fn new(key: Vec<u8>) -> (manager: Arc<Self>)
        ensures
            manager.key() == key@,
    {
        Arc::new(SovereignManager { key })
    }

    /// Tells whether the manager is ready, which it always is.
    pub fn test_connection(&self) -> (ready: bool)
        ensures
            ready,
    {
        true
    }

    /// Seals `data` under the manager's key with a fresh nonce.
    pub fn encrypt_data(&self, data: Vec<u8>) -> (r: Result<Vec<u8>, CoreError>)
        ensures
            self.key().len() != KEY_LEN ==> r == Err::<Vec<u8>, CoreError>(CoreError::Encryption),
            self.key().len() == KEY_LEN ==> match r {
                Ok(ciphertext) => {
                    &&& ciphertext@ == sealed(self.key(), nonce_part(ciphertext@), data@)
                    &&& open_outcome(self.key(), ciphertext@) == Ok::<Seq<u8>, CoreError>(data@)
                },
                Err(e) => e == CoreError::Entropy,
            },
    {
        encrypt(self.key.as_slice(), data.as_slice())
    }

    /// Opens `encrypted` under the manager's key.
    pub fn decrypt_data(&self, encrypted: Vec<u8>) -> (r: Result<Vec<u8>, CoreError>)
        ensures
            outcome_view(r) == open_outcome(self.key(), encrypted@),
    {
        decrypt(self.key.as_slice(), encrypted.as_slice())
    }

    /// Casts a vote with the nonce given: seals the vote and generates the
    /// proof for the ciphertext.
    pub fn cast_vote_with_nonce(&self, nonce: &[u8; 16], identity_ref: &str, vote: bool) -> (r:
        Result<SealedVote, CoreError>)
        ensures
            cast_outcome_view(r) == cast_outcome(self.key(), nonce@, identity_ref@, vote),
            r matches Ok(cast) ==> proof_binds(self.key(), cast@.proof, cast@.ciphertext),
    {
        if identity_ref.is_empty() {
            return Err(CoreError::ProofGeneration);
        }
        let payload: [u8; 1] = [encode_vote(vote)];
        assert(payload@ =~= seq![vote_byte(vote)]);
        let ciphertext = match encrypt_with_nonce(self.key.as_slice(), nonce, &payload) {
            Ok(ciphertext) => ciphertext,
            Err(e) => {
                return Err(e);
            },
        };
        match generate_proof(self.key.as_slice(), identity_ref, vote, ciphertext.as_slice()) {
            Ok(proof) => Ok(SealedVote { ciphertext, proof }),
            Err(e) => Err(e),
        }
    }

    /// Casts a vote: seals it with a fresh nonce and generates the proof for
    /// the ciphertext. Both are returned together. An identity reference that
    /// is not well formed is refused first, then a key that has not `KEY_LEN`
    /// bytes; after that the vote is cast, unless no nonce could be drawn.
    pub fn generate_vote_proof(&self, identity_ref: String, vote: bool) -> (r: Result<
        SealedVote,
        CoreError,
    >)
        ensures
            !identity_well_formed(identity_ref@) ==> r == Err::<SealedVote, CoreError>(
                CoreError::ProofGeneration,
            ),
            identity_well_formed(identity_ref@) && self.key().len() != KEY_LEN ==> r == Err::<
                SealedVote,
                CoreError,
            >(CoreError::Encryption),
            identity_well_formed(identity_ref@) && self.key().len() == KEY_LEN ==> match r {
                Ok(cast) => {
                    &&& cast@ == vote_sealed(
                        self.key(),
                        nonce_part(cast@.ciphertext),
                        identity_ref@,
                        vote,
                    )
                    &&& proof_valid(self.key(), cast@.proof)
                    &&& proof_binds(self.key(), cast@.proof, cast@.ciphertext)
                    &&& open_outcome(self.key(), cast@.ciphertext) == Ok::<Seq<u8>, CoreError>(
                        seq![vote_byte(vote)],
                    )
                },
                Err(e) => e == CoreError::Entropy,
            },
    {
        if identity_ref.as_str().is_empty() {
            return Err(CoreError::ProofGeneration);
        }
        let payload: [u8; 1] = [encode_vote(vote)];
        assert(payload@ =~= seq![vote_byte(vote)]);
        let ciphertext = match encrypt(self.key.as_slice(), &payload) {
            Ok(ciphertext) => ciphertext,
            Err(e) => {
                return Err(e);
            },
        };
        match generate_proof(
            self.key.as_slice(),
            identity_ref.as_str(),
            vote,
            ciphertext.as_slice(),
        ) {
            Ok(proof) => Ok(SealedVote { ciphertext, proof }),
            Err(e) => Err(e),
        }
    }

    /// Makes a new wallet and writes its record: the address and the text of
    /// the secret key.
    pub fn create_wallet(&self) -> (json: String)
        ensures
            is_wallet_record(json@),
    {
        crate::wallet::create_wallet()
    }

    /// Reads a secret key from its text and answers with the address of its
    /// wallet. Where the text is no list of bytes, or the bytes are no key
    /// pair, the answer says so.
    pub fn load_wallet(&self, secret_key: String) -> (answer: String)
        ensures
            answer@ == load_answer(secret_key@),
    {
        crate::wallet::load_wallet(secret_key.as_str())
    }

    /// Checks a vote proof under the manager's key. A record that is
    /// malformed or was altered is answered with `false`.
    pub fn verify_vote_proof(&self, record: &VoteProof) -> (valid: bool)
        ensures
            valid == proof_valid(self.key(), record@),
    {
        verify_proof(self.key.as_slice(), record)
    }

    /// Checks a cast vote under the manager's key: that its proof is valid
    /// and belongs to its ballot. The ballot is not opened.
    pub fn verify_sealed_vote(&self, cast: &SealedVote) -> (bound: bool)
        ensures
            bound == proof_binds(self.key(), cast@.proof, cast@.ciphertext),
    {
        verify_binding(self.key.as_slice(), &cast.proof, cast.ciphertext.as_slice())
    }
}

/// The greeting by which a host application tells that the library is
/// loaded.
pub fn hello_arcium() -> (greeting: String)
    ensures
        greeting@ == "Sovereign Core is Active"@,
{
    "Sovereign Core is Active".to_owned()
}

} // verus!
