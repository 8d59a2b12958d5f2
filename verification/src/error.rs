//! The failures that the library reports to its callers.

use vstd::prelude::*;

verus! {

/// Why an operation of the library did not produce its result.
#[derive(Clone, Copy, Debug, PartialEq, Eq, Structural)]
pub enum CoreError {
    /// The key does not have the length the cipher works with.
    Encryption,
    /// The authentication tag of a ciphertext does not match its contents:
    /// the ciphertext was altered, or it was sealed under another key.
    Authentication,
    /// The input is too short to be a ciphertext.
    MalformedInput,
    /// The identity reference cannot be attested.
    ProofGeneration,
    /// The operating system supplied no random bytes for a nonce.
    Entropy,
}

} // verus!
