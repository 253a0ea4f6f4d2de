//! Text, bytes, hashes and errors.

use silent_payment::bip352::{
    hex_to_32_bytes, hex_to_33_bytes, match_output, parse_pubkey_33, parse_secret_key_hex,
    pubkey_to_hex_pair, uncompressed_to_pubkey,
};
use silent_payment::hash::compute_tagged_hash;
use silent_payment::network::{bip352_coin_type, to_network_kind, to_sp_network};
use silent_payment::{Network, NetworkKind, SilentPaymentError, SpNetwork};

const GENERATOR: &str = "0279be667ef9dcbbac55a06295ce870b07029bfcdb2dce28d959f2815b16f81798";

fn text_of<T>(r: Result<T, SilentPaymentError>) -> String {
    match r {
        Ok(_) => panic!("expected an error"),
        Err(e) => e.to_text(),
    }
}

#[test]
fn error_texts() {
    let msg = || "why".to_string();
    assert_eq!(SilentPaymentError::InvalidKey { msg: msg() }.to_text(), "Invalid key: why");
    assert_eq!(SilentPaymentError::InvalidAddress { msg: msg() }.to_text(), "Invalid address: why");
    assert_eq!(SilentPaymentError::CryptoError { msg: msg() }.to_text(), "Cryptography error: why");
    assert_eq!(SilentPaymentError::EncodingError { msg: msg() }.to_text(), "Encoding error: why");
}

#[test]
fn hex_reads_both_cases() {
    let lower = "00ff".repeat(16);
    let upper = "00FF".repeat(16);
    let bytes = hex_to_32_bytes(&lower).ok().unwrap();
    assert_eq!(bytes[0], 0);
    assert_eq!(bytes[1], 255);
    assert_eq!(bytes, hex_to_32_bytes(&upper).ok().unwrap());
}

#[test]
fn hex_refuses_odd_length_first() {
    assert_eq!(text_of(hex_to_32_bytes("0z0")), "Encoding error: Odd number of digits");
}

#[test]
fn hex_refuses_first_bad_character() {
    assert_eq!(
        text_of(hex_to_32_bytes("00zz0y")),
        "Encoding error: Invalid character 'z' at position 2"
    );
    assert_eq!(
        text_of(hex_to_32_bytes("\n0")),
        "Encoding error: Invalid character '\\n' at position 0"
    );
    assert_eq!(
        text_of(hex_to_33_bytes("0x")),
        "Encoding error: Invalid character 'x' at position 1"
    );
}

#[test]
fn hex_refuses_other_lengths() {
    assert_eq!(
        text_of(hex_to_32_bytes("00ff")),
        "Encoding error: Expected 32 bytes (64 hex chars), got: 00ff"
    );
    assert_eq!(
        text_of(hex_to_33_bytes("")),
        "Encoding error: Expected 33 bytes (66 hex chars), got: "
    );
}

#[test]
fn secret_keys_are_in_range() {
    let order = "fffffffffffffffffffffffffffffffebaaedce6af48a03bbfd25e8cd0364141";
    let largest = "fffffffffffffffffffffffffffffffebaaedce6af48a03bbfd25e8cd0364140";
    let expected =
        "Invalid key: Invalid secp256k1 secret key: malformed or out-of-range secret key";
    assert_eq!(text_of(parse_secret_key_hex(&"00".repeat(32))), expected);
    assert_eq!(text_of(parse_secret_key_hex(order)), expected);
    let key = parse_secret_key_hex(largest).ok().unwrap();
    assert_eq!(key.secret_bytes()[31], 0x40);
}

#[test]
fn public_keys_are_points() {
    assert!(parse_pubkey_33(GENERATOR).is_ok());
    assert_eq!(
        text_of(parse_pubkey_33(&format!("05{}", &GENERATOR[2..]))),
        "Invalid key: Invalid compressed pubkey: malformed public key"
    );
    assert_eq!(
        text_of(parse_pubkey_33(&GENERATOR[2..])),
        format!("Encoding error: Expected 33 bytes (66 hex chars), got: {}", &GENERATOR[2..])
    );
}

#[test]
fn keys_are_listed_in_two_ways() {
    let key = parse_pubkey_33(GENERATOR).ok().unwrap();
    let (full, xonly) = pubkey_to_hex_pair(&key);
    assert_eq!(full, GENERATOR);
    assert_eq!(xonly, &GENERATOR[2..]);
    assert_eq!(parse_pubkey_33(&full).ok().unwrap().serialize(), key.serialize());
}

#[test]
fn coordinates_are_those_of_a_point() {
    let raw = hex::decode("79be667ef9dcbbac55a06295ce870b07029bfcdb2dce28d959f2815b16f81798483ada7726a3c4655da4fbfc0e1108a8fd17b448a68554199c47d08ffb10d4b8")
        .unwrap();
    let mut xy: [u8; 64] = raw.try_into().unwrap();
    assert_eq!(hex::encode(uncompressed_to_pubkey(&xy).ok().unwrap().serialize()), GENERATOR);
    xy[63] ^= 1;
    assert_eq!(
        text_of(uncompressed_to_pubkey(&xy)),
        "Cryptography error: Failed to reconstruct ECDH point: malformed public key"
    );
}

#[test]
fn first_match_is_returned() {
    let outputs: Vec<String> = ["a", "b", "c", "b"].iter().map(|s| s.to_string()).collect();
    assert_eq!(match_output(&outputs, "b", "c"), Some(1));
    assert_eq!(match_output(&outputs, "x", "c"), Some(2));
    assert_eq!(match_output(&outputs, "x", "y"), None);
    assert_eq!(match_output(&[], "x", "y"), None);
}

#[test]
fn tagged_hash_is_that_of_bip340() {
    // The tag of the challenge, over an empty message.
    let tag = <bitcoin_hashes::sha256::Hash as bitcoin_hashes::Hash>::hash(b"BIP0340/challenge");
    let tag_bytes = bitcoin_hashes::Hash::to_byte_array(tag);
    let whole = [tag_bytes, tag_bytes].concat();
    let expected = <bitcoin_hashes::sha256::Hash as bitcoin_hashes::Hash>::hash(&whole);
    assert_eq!(
        compute_tagged_hash("BIP0340/challenge", &[]),
        bitcoin_hashes::Hash::to_byte_array(expected)
    );
    assert_eq!(
        hex::encode(tag_bytes),
        "7bb52d7a9fef58323eb1bf7a407db382d2f3f2d81bb1224f49fe518f6d48d37c"
    );
}

#[test]
fn networks_are_mapped() {
    assert_eq!(to_sp_network(&Network::Bitcoin), SpNetwork::Mainnet);
    assert_eq!(to_sp_network(&Network::Testnet), SpNetwork::Testnet);
    assert_eq!(to_sp_network(&Network::Testnet4), SpNetwork::Testnet);
    assert_eq!(to_sp_network(&Network::Signet), SpNetwork::Testnet);
    assert_eq!(to_sp_network(&Network::Regtest), SpNetwork::Regtest);
    assert_eq!(to_network_kind(&Network::Bitcoin), NetworkKind::Main);
    assert_eq!(to_network_kind(&Network::Regtest), NetworkKind::Test);
    assert_eq!(bip352_coin_type(&Network::Bitcoin), 0);
    assert_eq!(bip352_coin_type(&Network::Signet), 1);
}
