//! Confidential vote encoding: authenticated encryption of ballots and
//! attestations that bind a voter identity to an encrypted ballot.

pub mod cipher;
pub mod digest;
pub mod error;
pub mod key_text;
pub mod mac;
pub mod manager;
pub mod vote_proof;
pub mod wallet;

pub use error::CoreError;
pub use manager::{hello_arcium, SealedVote, SovereignManager};
pub use vote_proof::VoteProof;
