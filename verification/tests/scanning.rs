//! Scanning and spending.

use silent_payment::{
    try_compute_sender_tweak_data, try_create_silent_payment_outputs, FoundPayment, Network,
    PaymentRecipient, SendingInput, SilentPaymentRecipient, SilentPaymentScanner, SpendableOutput,
};
use std::sync::Arc;

const TXID: &str = "f4184fc596403b9d638783cf57adfe4c75c605f6356fbc91338530e9831e9e16";

fn sender() -> Vec<SendingInput> {
    (1u8..4)
        .map(|n| SendingInput {
            secret_key_hex: hex::encode([n; 32]),
            is_taproot: n != 2,
            txid: TXID.to_string(),
            vout: n as u32,
        })
        .collect()
}

fn wallet() -> Arc<SilentPaymentRecipient> {
    SilentPaymentRecipient::from_secret_keys(
        hex::encode([0x11; 32]),
        hex::encode([0x22; 32]),
        Network::Bitcoin,
    )
    .unwrap()
}

fn scanner_for(wallet: &SilentPaymentRecipient) -> Arc<SilentPaymentScanner> {
    SilentPaymentScanner::watch_only(
        wallet.export_scan_secret_hex(),
        wallet.export_spend_pubkey_hex(),
    )
    .unwrap()
}

fn send(addresses: &[String]) -> (String, Vec<String>) {
    let recipients: Vec<PaymentRecipient> = addresses
        .iter()
        .map(|address| PaymentRecipient { address: address.clone(), amount_sats: 1 })
        .collect();
    let outputs = try_create_silent_payment_outputs(sender(), recipients).unwrap().unwrap();
    let tweak_data = try_compute_sender_tweak_data(sender()).unwrap().unwrap();
    (tweak_data, outputs.into_iter().map(|output| output.pubkey_hex).collect())
}

fn scan(tweak_data: &str, outputs: &[String], labels: &[u32]) -> Vec<FoundPayment> {
    scanner_for(&wallet())
        .try_scan_transaction_with_labels(
            vec![tweak_data.to_string()],
            outputs.to_vec(),
            labels.to_vec(),
        )
        .unwrap()
        .unwrap()
        .payments
}

fn scan_plain(tweak_data: &str, outputs: &[String]) -> Vec<FoundPayment> {
    scanner_for(&wallet())
        .try_scan_transaction(vec![tweak_data.to_string()], outputs.to_vec())
        .unwrap()
        .unwrap()
        .payments
}

fn summary(payments: &[FoundPayment]) -> Vec<(u32, String, Option<u32>)> {
    payments.iter().map(|p| (p.output_index, p.tweak_hex.clone(), p.label)).collect()
}

#[test]
fn sent_payments_are_found_and_spendable() {
    let own = wallet().get_address().address;
    let other = SilentPaymentRecipient::generate(Network::Bitcoin).unwrap().get_address().address;
    let (tweak_data, outputs) = send(&[own.clone(), other, own.clone(), own]);
    let found = scan_plain(&tweak_data, &outputs);
    assert_eq!(found.iter().map(|p| p.output_index).collect::<Vec<u32>>(), vec![0, 2, 3]);
    for payment in &found {
        assert_eq!(payment.label, None);
        assert_eq!(payment.amount_sats, 0);
        let spendable = wallet().derive_spending_key(payment.clone()).unwrap();
        assert_eq!(spendable.output_pubkey_hex(), outputs[payment.output_index as usize]);
        let secp = secp256k1::Secp256k1::new();
        let key = secp256k1::SecretKey::from_slice(
            &hex::decode(spendable.spending_key_hex()).unwrap(),
        )
        .unwrap();
        let point = secp256k1::PublicKey::from_secret_key(&secp, &key);
        assert_eq!(hex::encode(point.serialize()), spendable.output_pubkey_hex());
    }
}

#[test]
fn labeled_payments_are_found_in_one_pass() {
    let addresses = vec![
        wallet().get_labeled_address(7).unwrap().address,
        wallet().get_address().address,
        wallet().get_labeled_address(3).unwrap().address,
    ];
    let (tweak_data, outputs) = send(&addresses);
    let found = scan(&tweak_data, &outputs, &[3, 7, 1000]);
    let labels: Vec<(u32, Option<u32>)> =
        found.iter().map(|p| (p.output_index, p.label)).collect();
    assert_eq!(labels, vec![(0, Some(7)), (1, None), (2, Some(3))]);
    for payment in found {
        let index = payment.output_index as usize;
        let spendable = wallet().derive_spending_key(payment).unwrap();
        assert_eq!(spendable.output_pubkey_hex(), outputs[index]);
    }
}

#[test]
fn unknown_label_ends_the_scan() {
    let addresses = vec![
        wallet().get_labeled_address(7).unwrap().address,
        wallet().get_address().address,
    ];
    let (tweak_data, outputs) = send(&addresses);
    assert_eq!(scan(&tweak_data, &outputs, &[3]).len(), 0);
    assert_eq!(scan_plain(&tweak_data, &outputs).len(), 0);
}

#[test]
fn no_labels_is_a_plain_scan() {
    let own = wallet().get_address().address;
    let (tweak_data, outputs) = send(&[own.clone(), own]);
    let plain = scan_plain(&tweak_data, &outputs);
    assert_eq!(plain.len(), 2);
    assert_eq!(summary(&plain), summary(&scan(&tweak_data, &outputs, &[])));
}

#[test]
fn labels_lose_nothing() {
    let own = wallet().get_address().address;
    let (tweak_data, outputs) = send(&[own.clone(), own]);
    let plain = summary(&scan_plain(&tweak_data, &outputs));
    let labeled = summary(&scan(&tweak_data, &outputs, &[1, 2]));
    for payment in plain {
        assert!(labeled.contains(&payment));
    }
}

#[test]
fn xonly_outputs_are_matched() {
    let (tweak_data, outputs) = send(&[wallet().get_address().address]);
    let noise = "00".repeat(32);
    let listed = vec![noise, outputs[0][2..].to_string(), outputs[0].clone()];
    let found = scan_plain(&tweak_data, &listed);
    assert_eq!(found.len(), 1);
    assert_eq!(found[0].output_index, 1);
}

#[test]
fn nothing_is_found_in_other_transactions() {
    let other = SilentPaymentRecipient::generate(Network::Bitcoin).unwrap();
    let (tweak_data, outputs) = send(&[other.get_address().address]);
    assert_eq!(scan_plain(&tweak_data, &outputs).len(), 0);
    assert_eq!(scan_plain(&tweak_data, &[]).len(), 0);
}

#[test]
fn senders_must_be_given() {
    let scanner = scanner_for(&wallet());
    let plain = scanner.try_scan_transaction(vec![], vec![]).unwrap().err().unwrap();
    assert_eq!(
        plain.to_text(),
        "Invalid key: sender_input_pubkeys_hex must contain at least one entry (the Frigate tweak key)"
    );
    let labeled =
        scanner.try_scan_transaction_with_labels(vec![], vec![], vec![]).unwrap().err().unwrap();
    assert_eq!(
        labeled.to_text(),
        "Invalid key: sender_input_pubkeys_hex must not be empty"
    );
}

#[test]
fn tweak_data_must_be_a_point() {
    let scanner = scanner_for(&wallet());
    let e = scanner
        .try_scan_transaction(vec!["02".repeat(32)], vec![])
        .unwrap()
        .err()
        .unwrap();
    assert_eq!(
        e.to_text(),
        format!("Encoding error: Expected 33 bytes (66 hex chars), got: {}", "02".repeat(32))
    );
    let e = scanner
        .try_scan_transaction_with_labels(vec!["07".repeat(33)], vec![], vec![1])
        .unwrap()
        .err()
        .unwrap();
    assert_eq!(e.to_text(), "Invalid key: Invalid compressed pubkey: malformed public key");
}

#[test]
fn batch_is_a_loop() {
    let own = wallet().get_address().address;
    let (tweak_data, outputs) = send(&[own.clone(), own.clone(), own]);
    let found = scan_plain(&tweak_data, &outputs);
    let batch = wallet().derive_spending_keys_batch(found.clone()).unwrap();
    assert_eq!(batch.len(), 3);
    for (payment, output) in found.into_iter().zip(batch) {
        let single = wallet().derive_spending_key(payment).unwrap();
        assert_eq!(single.spending_key_hex(), output.spending_key_hex());
    }
    assert_eq!(wallet().derive_spending_keys_batch(vec![]).unwrap().len(), 0);
}

#[test]
fn batch_fails_with_its_first_error() {
    let payment = |tweak: &str| FoundPayment {
        output_index: 0,
        tweak_hex: tweak.to_string(),
        amount_sats: 0,
        label: None,
    };
    let payments = vec![payment(&"01".repeat(32)), payment("0"), payment("zz")];
    let e = wallet().derive_spending_keys_batch(payments).err().unwrap();
    assert_eq!(e.to_text(), "Encoding error: Odd number of digits");
}

#[test]
fn tweaks_are_checked() {
    let payment = |tweak: String, label: Option<u32>| FoundPayment {
        output_index: 0,
        tweak_hex: tweak,
        amount_sats: 0,
        label,
    };
    let large = wallet().derive_spending_key(payment("ff".repeat(32), None)).err().unwrap();
    assert_eq!(
        large.to_text(),
        "Cryptography error: tweak_hex is not a valid secp256k1 scalar (0 < t_k < n required)"
    );
    let spend = secp256k1::SecretKey::from_slice(&[0x22; 32]).unwrap();
    let inverse = hex::encode(spend.negate().secret_bytes());
    let cancelled = wallet().derive_spending_key(payment(inverse, None)).err().unwrap();
    assert_eq!(
        cancelled.to_text(),
        "Cryptography error: t_k scalar addition failed: bad tweak"
    );
    let zero = wallet().derive_spending_key(payment("00".repeat(32), None)).err().unwrap();
    assert_eq!(zero.to_text(), large.to_text());
    let order = "fffffffffffffffffffffffffffffffebaaedce6af48a03bbfd25e8cd0364141".to_string();
    let same = wallet().derive_spending_key(payment(order, Some(1))).err().unwrap();
    assert_eq!(same.to_text(), large.to_text());
    let one = format!("{}01", "00".repeat(31));
    let least = wallet().derive_spending_key(payment(one, None)).unwrap();
    assert_eq!(least.spending_key_hex(), format!("{}23", "22".repeat(31)));
}

#[test]
fn spendable_output_round_trip() {
    let (tweak_data, outputs) = send(&[wallet().get_address().address]);
    let found = scan_plain(&tweak_data, &outputs);
    let output = wallet().derive_spending_key(found[0].clone()).unwrap();
    let restored =
        SpendableOutput::from_hex(output.spending_key_hex(), output.output_pubkey_hex())
            .ok()
            .unwrap();
    assert_eq!(restored.spending_key_hex(), output.spending_key_hex());
    assert_eq!(restored.output_pubkey_hex(), output.output_pubkey_hex());
    assert_eq!(restored.spending_key().secret_bytes(), output.spending_key().secret_bytes());
    assert_eq!(restored.output_pubkey().serialize(), output.output_pubkey().serialize());
}

#[test]
fn spendable_output_keys_must_correspond() {
    let other = "0279be667ef9dcbbac55a06295ce870b07029bfcdb2dce28d959f2815b16f81798";
    let e = SpendableOutput::from_hex(hex::encode([0x22; 32]), other.to_string()).err().unwrap();
    assert_eq!(
        e.to_text(),
        "Invalid key: spending_key_hex does not correspond to output_pubkey_hex"
    );
    let e = SpendableOutput::from_hex("00".repeat(32), other.to_string()).err().unwrap();
    assert_eq!(
        e.to_text(),
        "Invalid key: Invalid secp256k1 secret key: malformed or out-of-range secret key"
    );
}

#[test]
fn scan_is_exact() {
    let other = |n: u8| {
        SilentPaymentRecipient::from_secret_keys(
            hex::encode([n; 32]),
            hex::encode([n + 1; 32]),
            Network::Bitcoin,
        )
        .unwrap()
        .get_address()
        .address
    };
    let own = wallet().get_address().address;
    let addresses = vec![
        own.clone(),
        other(0x31),
        wallet().get_labeled_address(5).unwrap().address,
        other(0x31),
        other(0x41),
        own.clone(),
        wallet().get_labeled_address(5).unwrap().address,
    ];
    let (tweak_data, outputs) = send(&addresses);
    let found: Vec<(u32, Option<u32>)> = scan(&tweak_data, &outputs, &[9, 5])
        .iter()
        .map(|p| (p.output_index, p.label))
        .collect();
    assert_eq!(found, vec![(0, None), (2, Some(5)), (5, None), (6, Some(5))]);
    let (tweak_data, outputs) = send(&[other(0x31), own.clone(), other(0x41), own]);
    let plain: Vec<u32> =
        scan_plain(&tweak_data, &outputs).iter().map(|p| p.output_index).collect();
    assert_eq!(plain, vec![1, 3]);
}

#[test]
fn more_outputs_change_nothing() {
    let own = wallet().get_address().address;
    let addresses =
        [own.clone(), wallet().get_labeled_address(2).unwrap().address, own.clone(), own];
    let (tweak_data, outputs) = send(&addresses);
    let before = summary(&scan_plain(&tweak_data, &outputs[..1]));
    let after = summary(&scan_plain(&tweak_data, &outputs));
    assert_eq!(before.len(), 1);
    assert_eq!(after[..1], before[..]);
    let before = summary(&scan(&tweak_data, &outputs[..3], &[2]));
    let after = summary(&scan(&tweak_data, &outputs, &[2]));
    assert_eq!(before.len(), 3);
    assert_eq!(after.len(), 4);
    for payment in before {
        assert!(after.contains(&payment));
    }
}

#[test]
fn labels_keep_the_order() {
    let own = wallet().get_address().address;
    let addresses =
        [own.clone(), own.clone(), wallet().get_labeled_address(2).unwrap().address, own];
    let (tweak_data, outputs) = send(&addresses);
    let plain = summary(&scan_plain(&tweak_data, &outputs));
    let unlabeled: Vec<(u32, String, Option<u32>)> = summary(&scan(&tweak_data, &outputs, &[2]))
        .into_iter()
        .filter(|payment| payment.2.is_none())
        .collect();
    assert_eq!(plain.len(), 2);
    assert_eq!(unlabeled.len(), 3);
    assert_eq!(unlabeled[..2], plain[..]);
}

#[test]
fn malformed_outputs_never_match() {
    let (tweak_data, outputs) = send(&[wallet().get_address().address]);
    let key = &outputs[0];
    let listed = vec![
        key.to_uppercase(),
        key[..64].to_string(),
        key[1..].to_string(),
        format!("{key}00"),
        String::new(),
    ];
    assert_eq!(scan_plain(&tweak_data, &listed).len(), 0);
    assert_eq!(scan(&tweak_data, &listed, &[1]).len(), 0);
}
