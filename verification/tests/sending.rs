//! Sending: inputs, outputs and tweak data.

use silent_payment::bip352::parse_secret_key_hex;
use silent_payment::send::compute_input_sum;
use silent_payment::{
    try_compute_sender_tweak_data, try_create_silent_payment_outputs, Network, OutputWithKey,
    PaymentRecipient, SendingInput, SilentPaymentError, SilentPaymentRecipient,
};
use std::sync::Arc;

const KEY_A: &str = "eadc78165ff1f8ea94ad7cfdc54990738a4c53f6e0507b42154201b8e5dff3b1";
const KEY_B: &str = "93f5ed907ad5b2bdbbdcb5d9116ebc0a4e1f92f910d5260237fa45a9408aad16";
const TXID_A: &str = "f4184fc596403b9d638783cf57adfe4c75c605f6356fbc91338530e9831e9e16";
const TXID_B: &str = "a1075db55d416d3ca199f55b6084e2115b9345e16c5cf302fc80e9d5fbf5d48d";

fn input(key: &str, is_taproot: bool, txid: &str, vout: u32) -> SendingInput {
    SendingInput {
        secret_key_hex: key.to_string(),
        is_taproot,
        txid: txid.to_string(),
        vout,
    }
}

fn inputs() -> Vec<SendingInput> {
    vec![input(KEY_A, false, TXID_A, 0), input(KEY_B, false, TXID_B, 1)]
}

fn negated(key: &str) -> String {
    let key = secp256k1::SecretKey::from_slice(&hex::decode(key).unwrap()).unwrap();
    hex::encode(key.negate().secret_bytes())
}

fn is_odd(key: &str) -> bool {
    let secp = secp256k1::Secp256k1::new();
    let key = secp256k1::SecretKey::from_slice(&hex::decode(key).unwrap()).unwrap();
    key.x_only_public_key(&secp).1 == secp256k1::Parity::Odd
}

fn recipient(n: u8) -> Arc<SilentPaymentRecipient> {
    SilentPaymentRecipient::from_secret_keys(
        hex::encode([n; 32]),
        hex::encode([n + 1; 32]),
        Network::Bitcoin,
    )
    .unwrap()
}

fn pay(addresses: &[String]) -> Vec<OutputWithKey> {
    let recipients: Vec<PaymentRecipient> = addresses
        .iter()
        .map(|address| PaymentRecipient { address: address.clone(), amount_sats: 1 })
        .collect();
    try_create_silent_payment_outputs(inputs(), recipients).unwrap().unwrap()
}

fn tweak(inputs: Vec<SendingInput>) -> String {
    try_compute_sender_tweak_data(inputs).unwrap().unwrap()
}

fn tweak_error(inputs: Vec<SendingInput>) -> SilentPaymentError {
    try_compute_sender_tweak_data(inputs).unwrap().err().unwrap()
}

fn outputs_error(inputs: Vec<SendingInput>) -> SilentPaymentError {
    let recipients =
        vec![PaymentRecipient { address: recipient(1).get_address().address, amount_sats: 1 }];
    try_create_silent_payment_outputs(inputs, recipients).unwrap().err().unwrap()
}

#[test]
fn tweak_data_matches_outside_computation() {
    let secp = secp256k1::Secp256k1::new();
    let key = |text: &str| secp256k1::SecretKey::from_slice(&hex::decode(text).unwrap()).unwrap();
    let sum = key(KEY_A).add_tweak(&key(KEY_B).into()).unwrap();
    let mut outpoint = hex::decode(TXID_A).unwrap();
    outpoint.reverse();
    outpoint.extend_from_slice(&0u32.to_le_bytes());
    let mut other = hex::decode(TXID_B).unwrap();
    other.reverse();
    other.extend_from_slice(&1u32.to_le_bytes());
    let smallest = outpoint.min(other);
    let point = secp256k1::PublicKey::from_secret_key(&secp, &sum);
    let message = [smallest, point.serialize().to_vec()].concat();
    let hash = silent_payment::hash::compute_tagged_hash("BIP0352/Inputs", &message);
    let scalar = secp256k1::Scalar::from_be_bytes(hash).unwrap();
    let expected = point.mul_tweak(&secp, &scalar).unwrap();
    assert_eq!(tweak(inputs()), hex::encode(expected.serialize()));
}

#[test]
fn input_order_does_not_matter() {
    let mut reversed = inputs();
    reversed.reverse();
    assert_eq!(tweak(inputs()), tweak(reversed));
}

#[test]
fn outputs_do_not_depend_on_input_order() {
    let mut reversed = inputs();
    reversed.reverse();
    let address = recipient(1).get_address().address;
    let recipients = vec![PaymentRecipient { address: address.clone(), amount_sats: 1 }];
    let outputs = try_create_silent_payment_outputs(reversed, recipients).unwrap().unwrap();
    assert_eq!(outputs[0].pubkey_hex, pay(&[address])[0].pubkey_hex);
}

#[test]
fn tweak_data_is_a_key() {
    let text = tweak(inputs());
    assert_eq!(text.len(), 66);
    assert!(text.starts_with("02") || text.starts_with("03"));
}

#[test]
fn outpoint_matters() {
    let other = vec![input(KEY_A, false, TXID_A, 7), input(KEY_B, false, TXID_B, 1)];
    assert_ne!(tweak(inputs()), tweak(other));
}

#[test]
fn odd_taproot_keys_are_negated() {
    let odd = if is_odd(KEY_A) { KEY_A.to_string() } else { negated(KEY_A) };
    let even = negated(&odd);
    let with = |key: &str, is_taproot: bool| {
        tweak(vec![input(key, is_taproot, TXID_A, 0), input(KEY_B, false, TXID_B, 0)])
    };
    assert_eq!(with(&odd, true), with(&even, true));
    assert_eq!(with(&odd, true), with(&even, false));
    assert_ne!(with(&odd, true), with(&odd, false));
    let address = recipient(1).get_address().address;
    let output = |key: &str, is_taproot: bool| {
        let recipients = vec![PaymentRecipient { address: address.clone(), amount_sats: 1 }];
        let inputs = vec![input(key, is_taproot, TXID_A, 0)];
        try_create_silent_payment_outputs(inputs, recipients).unwrap().unwrap()[0]
            .pubkey_hex
            .clone()
    };
    assert_eq!(output(&odd, true), output(&even, true));
    assert_eq!(output(&odd, true), output(&even, false));
}

#[test]
fn key_sum_negates_odd_taproot_keys() {
    let key = |text: &str| parse_secret_key_hex(text).ok().unwrap();
    let odd = if is_odd(KEY_A) { KEY_A.to_string() } else { negated(KEY_A) };
    let alone = compute_input_sum(&vec![(key(&odd), true)]).unwrap();
    assert_eq!(hex::encode(alone.secret_bytes()), negated(&odd));
    let plain = compute_input_sum(&vec![(key(&odd), false)]).unwrap();
    assert_eq!(hex::encode(plain.secret_bytes()), odd);
    let cancelled = compute_input_sum(&vec![(key(&odd), true), (key(&odd), false)]);
    assert!(cancelled.is_none());
    assert!(compute_input_sum(&vec![]).is_none());
}

#[test]
fn outputs_are_numbered_by_scan_key() {
    let first = recipient(1).get_address().address;
    let labeled = recipient(1).get_labeled_address(4).unwrap().address;
    let other = recipient(9).get_address().address;
    let alone = pay(&[first.clone()]);
    let many = pay(&[first.clone(), other.clone(), first.clone(), labeled, first.clone()]);
    assert_eq!(many.len(), 5);
    assert_eq!(many[0].pubkey_hex, alone[0].pubkey_hex);
    assert_eq!(many[1].pubkey_hex, pay(&[other])[0].pubkey_hex);
    assert_eq!(many[2].pubkey_hex, pay(&[first.clone(), first.clone()])[1].pubkey_hex);
    for i in 0..5 {
        assert_eq!(many[i].pubkey_hex.len(), 66);
        for j in 0..i {
            assert_ne!(many[i].pubkey_hex, many[j].pubkey_hex);
        }
    }
    assert_eq!(many[4].recipient_address, first);
}

#[test]
fn lists_must_not_be_empty() {
    let none = try_create_silent_payment_outputs(vec![], vec![]).unwrap().err().unwrap();
    assert_eq!(none.to_text(), "Invalid key: At least one input private key is required");
    let nobody = try_create_silent_payment_outputs(inputs(), vec![]).unwrap().err().unwrap();
    assert_eq!(nobody.to_text(), "Invalid address: At least one recipient is required");
    assert_eq!(tweak_error(vec![]).to_text(), "Invalid key: inputs must not be empty");
}

#[test]
fn input_keys_are_checked() {
    let zero = "00".repeat(32);
    let bad = || vec![input(KEY_A, false, TXID_A, 0), input(&zero, false, TXID_A, 1)];
    assert_eq!(
        outputs_error(bad()).to_text(),
        "Invalid key: Invalid input key: malformed or out-of-range secret key"
    );
    assert_eq!(
        tweak_error(bad()).to_text(),
        "Invalid key: malformed or out-of-range secret key"
    );
}

#[test]
fn outpoints_are_checked() {
    let short = || vec![input(KEY_A, false, "00ff", 12)];
    assert_eq!(
        outputs_error(short()).to_text(),
        "Encoding error: Invalid outpoint (00ff:12): Invalid outpoint hex representation: 00ff"
    );
    assert_eq!(
        tweak_error(short()).to_text(),
        "Encoding error: Invalid outpoint hex representation: 00ff"
    );
    let odd = || vec![input(KEY_A, false, "0", 0)];
    assert_eq!(
        outputs_error(odd()).to_text(),
        "Encoding error: Invalid outpoint (0:0): Odd number of digits"
    );
    let letter = || vec![input(KEY_A, false, "0g", 0)];
    assert_eq!(
        tweak_error(letter()).to_text(),
        "Encoding error: Invalid character 'g' at position 1"
    );
}

#[test]
fn keys_must_not_cancel() {
    let cancelled =
        || vec![input(KEY_A, false, TXID_A, 0), input(&negated(KEY_A), false, TXID_B, 0)];
    assert_eq!(
        outputs_error(cancelled()).to_text(),
        "Cryptography error: Partial secret computation failed: bad tweak"
    );
    assert_eq!(tweak_error(cancelled()).to_text(), "Cryptography error: bad tweak");
}

#[test]
fn addresses_are_checked() {
    let recipients = vec![
        PaymentRecipient { address: recipient(1).get_address().address, amount_sats: 1 },
        PaymentRecipient { address: "nonsense".to_string(), amount_sats: 1 },
    ];
    let e = try_create_silent_payment_outputs(inputs(), recipients).unwrap().err().unwrap();
    assert!(e.to_text().starts_with("Invalid address: "));
}
