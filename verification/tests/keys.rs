//! Addresses, key files and keypairs.

use hammer::keypair::Keypair;
use hammer::pubkey::{
    make_pubkey, parse_key_file, pubkey_from_base58, pubkey_from_key_file, pubkey_from_keypair,
    pubkey_to_string, KeyError, Pubkey,
};
use solana_sdk::signature::Signer;

fn sample_keypair() -> solana_sdk::signature::Keypair {
    solana_sdk::signer::keypair::keypair_from_seed(&[7u8; 32]).unwrap()
}

fn key_file(bytes: &[u8]) -> Vec<u8> {
    let numbers: Vec<String> = bytes.iter().map(|b| b.to_string()).collect();
    format!("[{}]", numbers.join(",")).into_bytes()
}

#[test]
fn zero_address_is_thirty_two_ones() {
    let text = pubkey_to_string(&Pubkey { bytes: [0; 32] });
    assert_eq!(text, "11111111111111111111111111111111");
}

#[test]
fn text_form_is_that_of_the_sdk() {
    let bytes = sample_keypair().pubkey().to_bytes();
    let text = pubkey_to_string(&Pubkey { bytes });
    assert_eq!(text, sample_keypair().pubkey().to_string());
    assert_eq!(pubkey_from_base58(&text), Some(Pubkey { bytes }));
}

#[test]
fn different_addresses_have_different_texts() {
    let a = Pubkey { bytes: [1; 32] };
    let b = Pubkey { bytes: [2; 32] };
    assert_ne!(pubkey_to_string(&a), pubkey_to_string(&b));
    assert!(a.same(&a));
    assert!(!a.same(&b));
}

#[test]
fn base58_text_of_another_length_is_no_address() {
    assert_eq!(pubkey_from_base58("1111111111111111111111111111111"), None);
    assert_eq!(pubkey_from_base58("111111111111111111111111111111111"), None);
    assert_eq!(pubkey_from_base58(""), None);
}

#[test]
fn text_that_is_not_base58_is_no_address() {
    assert_eq!(pubkey_from_base58("0OIl"), None);
    assert_eq!(pubkey_from_base58("./id.json"), None);
}

#[test]
fn key_file_lists_bytes() {
    assert_eq!(parse_key_file(b"[1,2,255]"), Ok(vec![1, 2, 255]));
    assert_eq!(parse_key_file(b"[0,+7]"), Ok(vec![0, 7]));
    assert_eq!(parse_key_file(b"[007,1]"), Ok(vec![7, 1]));
}

#[test]
fn key_file_without_a_comma_is_short() {
    assert_eq!(parse_key_file(b"[7]"), Err(KeyError::Short));
    assert_eq!(parse_key_file(b""), Err(KeyError::Short));
    assert_eq!(KeyError::Short.message(), "Short key file");
}

#[test]
fn key_file_with_other_things_is_malformed() {
    assert_eq!(parse_key_file(b"[1,256]"), Err(KeyError::Malformed));
    assert_eq!(parse_key_file(b"[1,x]"), Err(KeyError::Malformed));
    assert_eq!(parse_key_file(b"[1, 2]"), Err(KeyError::Malformed));
    assert_eq!(parse_key_file(b"[1,2]\n"), Err(KeyError::Malformed));
    assert_eq!(parse_key_file(b",1]"), Err(KeyError::Malformed));
    assert_eq!(parse_key_file(b"[1,"), Err(KeyError::Malformed));
    assert_eq!(parse_key_file(b"[,1]"), Err(KeyError::Malformed));
    assert_eq!(parse_key_file(b"[+,1]"), Err(KeyError::Malformed));
    assert_eq!(parse_key_file(b"[1,-1]"), Err(KeyError::Malformed));
}

#[test]
fn address_text_needs_no_file() {
    let unread = Err("not read".to_string());
    let made = make_pubkey("11111111111111111111111111111111", &unread);
    assert_eq!(made, Ok(Pubkey { bytes: [0; 32] }));
}

#[test]
fn key_file_gives_the_public_key() {
    let keypair = sample_keypair();
    let file = Ok(key_file(&keypair.to_bytes()));
    let expected = Pubkey { bytes: keypair.pubkey().to_bytes() };
    assert_eq!(make_pubkey("key.json", &file), Ok(expected));
    assert_eq!(pubkey_from_key_file("key.json", &file), Ok(expected));
}

#[test]
fn unreadable_key_file_is_named() {
    let made = make_pubkey("key.json", &Err("No such file".to_string()));
    let error = made.unwrap_err();
    assert_eq!(
        error,
        KeyError::Unreadable { path: "key.json".to_string(), reason: "No such file".to_string() }
    );
    assert_eq!(error.message(), "Failed to read key file 'key.json': No such file");
}

#[test]
fn short_key_file_is_refused() {
    assert_eq!(make_pubkey("key.json", &Ok(b"[1]".to_vec())), Err(KeyError::Short));
}

#[test]
fn malformed_key_file_is_refused() {
    let made = make_pubkey("key.json", &Ok(b"[1,no]".to_vec()));
    assert_eq!(made, Err(KeyError::Malformed));
    assert_eq!(KeyError::Malformed.message(), "Malformed key file");
}

#[test]
fn key_file_that_is_no_keypair_is_refused() {
    let made = make_pubkey("key.json", &Ok(b"[1,2,3]".to_vec()));
    let reason = ed25519_dalek::Keypair::from_bytes(&[1, 2, 3]).unwrap_err().to_string();
    assert_eq!(
        made.unwrap_err().message(),
        format!("Invalid key file 'key.json' contents: {}", reason)
    );
}

#[test]
fn public_key_is_the_second_half() {
    let bytes = sample_keypair().to_bytes();
    let made = pubkey_from_keypair("key.json", &bytes.to_vec()).unwrap();
    assert_eq!(made.bytes[..], bytes[32..]);
    let keypair = Keypair { bytes };
    assert_eq!(keypair.pubkey(), made);
}

#[test]
fn new_keypairs_are_keypairs_and_differ() {
    let a = Keypair::new();
    let b = Keypair::new();
    assert!(a.bytes != b.bytes);
    let read = solana_sdk::signature::Keypair::from_bytes(&a.bytes).unwrap();
    assert_eq!(read.pubkey().to_bytes(), a.pubkey().bytes);
    assert_eq!(pubkey_from_keypair("", &a.bytes.to_vec()), Ok(a.pubkey()));
}
