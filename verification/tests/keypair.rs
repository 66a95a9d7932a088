use metaboss::parse::keypair::{decode_secret, keypair_path, read_keypair, KeypairError, SolanaConfig};
use solana_sdk::signer::keypair::Keypair;
use solana_sdk::signer::Signer;

fn s(text: &str) -> String {
    text.to_string()
}

fn config(path: &str) -> SolanaConfig {
    SolanaConfig { json_rpc_url: s("https://api.devnet.solana.com"), keypair_path: s(path), commitment: s("confirmed") }
}

#[test]
fn key_file_named_on_the_command_line_comes_first() {
    assert_eq!(keypair_path(Some(s("cli.json")), Some(config("config.json"))), Ok(s("cli.json")));
    assert_eq!(keypair_path(Some(s("cli.json")), None), Ok(s("cli.json")));
    assert_eq!(keypair_path(None, Some(config("config.json"))), Ok(s("config.json")));
    assert_eq!(keypair_path(None, None), Err(KeypairError::NoKeypairProvided));
}

#[test]
fn secret_is_read_from_a_json_array() {
    assert_eq!(decode_secret("[1, 2, 255]"), Ok(vec![1, 2, 255]));
    assert_eq!(decode_secret("[]"), Ok(vec![]));
}

#[test]
fn secret_is_read_from_base58_without_outer_blanks() {
    let expected = vec![0x04, 0x30, 0x5e, 0x2b, 0x24, 0x73, 0xf0, 0x58];
    assert_eq!(decode_secret("he11owor1d"), Ok(expected.clone()));
    assert_eq!(decode_secret("  he11owor1d \n"), Ok(expected));
}

#[test]
fn secret_in_no_known_form_is_refused() {
    assert_eq!(decode_secret("[1, 2, 256]"), Err(KeypairError::UnsupportedKeyType));
    assert_eq!(decode_secret("0OIl"), Err(KeypairError::UnsupportedKeyType));
    assert_eq!(decode_secret("he11o wor1d"), Err(KeypairError::UnsupportedKeyType));
}

#[test]
fn key_pair_is_read_from_both_forms() {
    let made = Keypair::new();
    let as_json = format!("{:?}", made.to_bytes().to_vec());
    let from_json = read_keypair(&as_json).unwrap();
    assert_eq!(from_json.to_bytes(), made.to_bytes());
    assert_eq!(from_json.pubkey(), made.pubkey());
    let as_base58 = format!("{}\n", made.to_base58_string());
    let from_base58 = read_keypair(&as_base58).unwrap();
    assert_eq!(from_base58.to_bytes(), made.to_bytes());
}

#[test]
fn bytes_that_make_no_key_pair_are_refused() {
    assert_eq!(read_keypair("[1, 2, 3]").err(), Some(KeypairError::InvalidKeypair));
    assert_eq!(read_keypair("he11owor1d").err(), Some(KeypairError::InvalidKeypair));
    assert_eq!(read_keypair("{}").err(), Some(KeypairError::UnsupportedKeyType));
}
