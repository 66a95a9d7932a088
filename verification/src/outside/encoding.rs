//! Text forms of bytes and values: JSON, base 58, key pairs.
//!
//! Nothing in this file is proved.  Each function states what one function
//! of another library does, by a name for its result.

use solana_sdk::signer::keypair::Keypair;
use vstd::prelude::*;

verus! {

/// The key pair of the ledger's library, taken as it is: nothing is said of
/// what it holds.
#[verifier::external_type_specification]
#[verifier::external_body]
pub struct ExKeypair(Keypair);

/// The bytes that a text holds as a JSON array of numbers from 0 to 255,
/// where it is one.
pub uninterp spec fn json_byte_array(text: Seq<char>) -> Option<Seq<u8>>;

/// The bytes that a text holds in base 58, where it is written in the
/// alphabet of base 58.
pub uninterp spec fn base58_decoded(text: Seq<char>) -> Option<Seq<u8>>;

/// The text without the blanks at its start and its end.
pub uninterp spec fn trimmed(text: Seq<char>) -> Seq<char>;

/// Whether the bytes make a key pair of the ledger: 64 bytes, of which the
/// last 32 are a public key.
pub uninterp spec fn keypair_bytes_valid(bytes: Seq<u8>) -> bool;

/// The text that `serde_json` prints, in its pretty form, for the array of
/// the given strings.
pub uninterp spec fn pretty_json_of_texts(items: Seq<Seq<char>>) -> Seq<char>;

/// `serde_json::from_str`, asked for a vector of bytes.
#[verifier::external_body]
pub(crate) fn bytes_from_json(text: &str) -> (bytes: Option<Vec<u8>>)
    ensures
        match bytes {
            Some(b) => json_byte_array(text@) == Some(b@),
            None => json_byte_array(text@) is None,
        },
{
    match serde_json::from_str::<Vec<u8>>(text) {
        Ok(bytes) => Some(bytes),
        Err(_) => None,
    }
}

/// `bs58::decode` into a vector, with the default alphabet.
#[verifier::external_body]
pub(crate) fn bytes_from_base58(text: &str) -> (bytes: Option<Vec<u8>>)
    ensures
        match bytes {
            Some(b) => base58_decoded(text@) == Some(b@),
            None => base58_decoded(text@) is None,
        },
{
    match bs58::decode(text).into_vec() {
        Ok(bytes) => Some(bytes),
        Err(_) => None,
    }
}

/// `str::trim`.
#[verifier::external_body]
pub(crate) fn trim(text: &str) -> (inner: &str)
    ensures
        inner@ == trimmed(text@),
{
    text.trim()
}

/// `Keypair::from_bytes`: there is a key pair exactly where the bytes make
/// one, and only 64 bytes do.
#[verifier::external_body]
pub(crate) fn keypair_from_bytes(bytes: &Vec<u8>) -> (keypair: Option<Keypair>)
    ensures
        keypair is Some <==> keypair_bytes_valid(bytes@),
        keypair is Some ==> bytes@.len() == 64,
{
    match Keypair::from_bytes(bytes.as_slice()) {
        Ok(keypair) => Some(keypair),
        Err(_) => None,
    }
}

/// `serde_json::to_string_pretty` on a vector of strings.  The printer
/// writes into memory and fails only where a value refuses to be written
/// or a key is not a string; an array of strings has neither, so the text
/// always comes.
#[verifier::external_body]
pub(crate) fn texts_to_pretty_json(items: &Vec<String>) -> (text: Option<String>)
    ensures
        text is Some,
        text matches Some(t) ==> t@ == pretty_json_of_texts(crate::text::texts(items@)),
{
    match serde_json::to_string_pretty(items) {
        Ok(text) => Some(text),
        Err(_) => None,
    }
}

} // verus!
