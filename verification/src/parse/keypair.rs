//! Where the signing key comes from and how it is read.

use crate::outside::encoding::{
    base58_decoded, bytes_from_base58, bytes_from_json, json_byte_array, keypair_bytes_valid,
    keypair_from_bytes, trim, trimmed,
};
use solana_sdk::signer::keypair::Keypair;
use vstd::prelude::*;

verus! {

/// Why no key pair could be had.
#[derive(Debug, PartialEq, Eq, Structural, Clone, Copy)]
pub enum KeypairError {
    /// Neither the command line nor the configuration names a key file.
    NoKeypairProvided,
    /// The key file holds neither a JSON array of bytes nor base 58.
    UnsupportedKeyType,
    /// The bytes of the key file do not make a key pair.
    InvalidKeypair,
}

/// What the configuration of the ledger's command-line tools holds.
#[derive(Clone, Debug, PartialEq, Eq)]
pub struct SolanaConfig {
    pub json_rpc_url: String,
    pub keypair_path: String,
    pub commitment: String,
}

/// The file to read the key pair from: the one named on the command line,
/// else the one that the configuration names.
pub fn keypair_path(keypair_opt: Option<String>, sol_config_option: Option<SolanaConfig>) -> (path:
    Result<String, KeypairError>)
    ensures
        match (keypair_opt, sol_config_option) {
            (Some(given), _) => path == Ok::<String, KeypairError>(given),
            (None, Some(config)) => path == Ok::<String, KeypairError>(config.keypair_path),
            (None, None) => path == Err::<String, KeypairError>(KeypairError::NoKeypairProvided),
        },
{
    match keypair_opt {
        Some(given) => Ok(given),
        None => match sol_config_option {
            Some(config) => Ok(config.keypair_path),
            None => Err(KeypairError::NoKeypairProvided),
        },
    }
}

/// The secret bytes that the content of a key file holds: those of a JSON
/// array of bytes where the content is one, else those that the content
/// without its outer blanks holds in base 58.
pub open spec fn secret_bytes(content: Seq<char>) -> Option<Seq<u8>> {
    match json_byte_array(content) {
        Some(bytes) => Some(bytes),
        None => base58_decoded(trimmed(content)),
    }
}

/// Reads the secret bytes from the content of a key file.
pub fn decode_secret(secret_string: &str) -> (bytes: Result<Vec<u8>, KeypairError>)
    ensures
        match bytes {
            Ok(b) => secret_bytes(secret_string@) == Some(b@),
            Err(e) => e == KeypairError::UnsupportedKeyType && secret_bytes(secret_string@)
                is None,
        },
{
    match bytes_from_json(secret_string) {
        Some(bytes) => Ok(bytes),
        None => match bytes_from_base58(trim(secret_string)) {
            Some(bytes) => Ok(bytes),
            None => Err(KeypairError::UnsupportedKeyType),
        },
    }
}

/// Reads a key pair from the content of a key file.  Succeeds exactly
/// where the content holds bytes in one of the two forms and the bytes make
/// a key pair; 64 bytes are needed for one.
pub fn read_keypair(secret_string: &str) -> (keypair: Result<Keypair, KeypairError>)
    ensures
        match secret_bytes(secret_string@) {
            None => keypair matches Err(e) && e == KeypairError::UnsupportedKeyType,
            Some(bytes) => if keypair_bytes_valid(bytes) {
                keypair is Ok && bytes.len() == 64
            } else {
                keypair matches Err(e) && e == KeypairError::InvalidKeypair
            },
        },
{
    let bytes = match decode_secret(secret_string) {
        Ok(bytes) => bytes,
        Err(e) => {
            return Err(e);
        },
    };
    match keypair_from_bytes(&bytes) {
        Some(keypair) => Ok(keypair),
        None => Err(KeypairError::InvalidKeypair),
    }
}

} // verus!
