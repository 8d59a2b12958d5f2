//! Wallets: key pairs made and read by `solana_sdk`.

use crate::key_text::{
    format_key_bytes, key_bytes, key_text, lemma_key_text_read_back, parse_key_text,
};
use solana_sdk::signer::keypair::Keypair;
use solana_sdk::signer::Signer;
use vstd::prelude::*;
use vstd::string::StringExecFns;

verus! {

/// The record of a wallet: a JSON object with the address under `pub_key`
/// and the text of the secret key under `secret_key`, both as strings.
pub open spec fn wallet_record(address: Seq<char>, secret: Seq<u8>) -> Seq<char> {
    "{\"pub_key\": \""@ + address + "\", \"secret_key\": \""@ + key_text(secret) + "\"}"@
}

/// Writes the record of a wallet.
pub fn wallet_json(address: &str, secret: &[u8]) -> (json: String)
    ensures
        json@ == wallet_record(address@, secret@),
{
    let mut json = String::new();
    json.append("{\"pub_key\": \"");
    json.append(address);
    json.append("\", \"secret_key\": \"");
    json.append(format_key_bytes(secret).as_str());
    json.append("\"}");
    assert(json@ =~= wallet_record(address@, secret@));
    json
}

/// The address of the key pair that `secret_key` holds: the public key in
/// base 58. There is none where `solana_sdk` does not accept the bytes as a
/// key pair.
pub uninterp spec fn wallet_address(secret_key: Seq<u8>) -> Option<Seq<char>>;

/// The view of an address that may be missing.
pub open spec fn address_view(r: Option<String>) -> Option<Seq<char>> {
    match r {
        Some(address) => Some(address@),
        None => None,
    }
}

/// Calls `Keypair::from_bytes` of `solana_sdk` and, where it accepts the
/// bytes, writes the public key of the key pair out with `to_string`, which
/// gives it in base 58. The contract claims that whether the bytes are
/// accepted, and the address if they are, depend on the bytes alone: they
/// are what `wallet_address` names.
#[verifier::external_body]
fn address_of(secret_key: &[u8]) -> (r: Option<String>)
    ensures
        address_view(r) == wallet_address(secret_key@),
{
    match Keypair::from_bytes(secret_key) {
        Ok(pair) => Some(pair.pubkey().to_string()),
        Err(_) => None,
    }
}

/// Calls `Keypair::new` of `solana_sdk`, which makes a key pair from the
/// operating system's random bytes, and takes its address with `to_string`
/// and its 64 bytes with `to_bytes`. The contract claims that the address is
/// the address of these bytes: they are the secret half followed by the
/// public half derived from it, so that `Keypair::from_bytes` accepts them
/// and finds the same public key. Nothing is claimed of which key pair is
/// made.
#[verifier::external_body]
fn new_key_pair() -> (r: (String, [u8; 64]))
    ensures
        wallet_address(r.1@) == Some(r.0@),
{
    let pair = Keypair::new();
    (pair.pubkey().to_string(), pair.to_bytes())
}

/// Tells whether `json` is the record of a wallet whose address is the
/// address of its secret key of 64 bytes.
pub open spec fn is_wallet_record(json: Seq<char>) -> bool {
    exists|address: Seq<char>, secret: Seq<u8>|
        {
            &&& secret.len() == 64
            &&& wallet_address(secret) == Some(address)
            &&& json == #[trigger] wallet_record(address, secret)
        }
}

/// Makes a new wallet and writes its record.
pub fn create_wallet() -> (json: String)
    ensures
        is_wallet_record(json@),
{
    let (address, secret) = new_key_pair();
    wallet_json(address.as_str(), &secret)
}

/// What loading a wallet answers, as a text: the address, or why there is
/// none.
pub open spec fn load_answer(text: Seq<char>) -> Seq<char> {
    match key_bytes(text) {
        None => "Invalid secret key format"@,
        Some(secret) => address_answer(wallet_address(secret)),
    }
}

/// The answer for a secret key that was read: its address, or that the
/// bytes are no key pair.
pub open spec fn address_answer(address: Option<Seq<char>>) -> Seq<char> {
    match address {
        Some(found) => found,
        None => "Invalid secret key bytes"@,
    }
}

/// Writes the answer for a secret key that was read.
pub fn answer_for(address: Option<String>) -> (answer: String)
    ensures
        answer@ == address_answer(address_view(address)),
{
    match address {
        Some(found) => found,
        None => "Invalid secret key bytes".to_owned(),
    }
}

/// Reads a secret key from its text and answers with the address of its
/// wallet, or with the reason why there is none.
pub fn load_wallet(secret_key: &str) -> (answer: String)
    ensures
        answer@ == load_answer(secret_key@),
{
    match parse_key_text(secret_key) {
        Some(secret) => answer_for(address_of(secret.as_slice())),
        None => "Invalid secret key format".to_owned(),
    }
}

/// Loading the text of a secret key of one byte or more answers for the key
/// itself: with the address of its key pair, or that it is none. So a new
/// wallet loads to the address in its record.
pub proof fn lemma_wallet_loads(secret: Seq<u8>)
    requires
        secret.len() > 0,
    ensures
        load_answer(key_text(secret)) == address_answer(wallet_address(secret)),
{
    lemma_key_text_read_back(secret);
}

} // verus!
