//! Published test vectors of BIP-352, BIP-32 and BIP-39.

use silent_payment::{
    try_compute_sender_tweak_data, try_create_silent_payment_outputs, Network, PaymentRecipient,
    SendingInput, SilentPaymentRecipient, SilentPaymentScanner,
};

const ADDRESS: &str = "sp1qqgste7k9hx0qftg6qmwlkqtwuy6cycyavzmzj85c6qdfhjdpdjtdgqjuexzk6murw56suy3e0rd2cgqvycxttddwsvgxe2usfpxumr70xc9pkqwv";
const OUTPUT: &str = "3e9fce73d4e77a4809908e3c3a2e54ee147b9312dc5044a193d1fc85de46e3c1";
const SCAN: &str = "0f694e068028a717f8af6b9411f9a133dd3565258714cc226594b34db90c1f2c";
const SPEND: &str = "9d6ad855ce3417ef84e836892e5a56392bfba05fa5d97ccea30e266f540e08b3";
const TWEAK: &str = "f438b40179a3c4262de12986c0e6cce0634007cdc79c1dcd3e20b9ebc2e7eef6";

fn inputs() -> Vec<SendingInput> {
    vec![
        SendingInput {
            secret_key_hex: "eadc78165ff1f8ea94ad7cfdc54990738a4c53f6e0507b42154201b8e5dff3b1"
                .to_string(),
            is_taproot: false,
            txid: "f4184fc596403b9d638783cf57adfe4c75c605f6356fbc91338530e9831e9e16".to_string(),
            vout: 0,
        },
        SendingInput {
            secret_key_hex: "93f5ed907ad5b2bdbbdcb5d9116ebc0a4e1f92f910d5260237fa45a9408aad16"
                .to_string(),
            is_taproot: false,
            txid: "a1075db55d416d3ca199f55b6084e2115b9345e16c5cf302fc80e9d5fbf5d48d".to_string(),
            vout: 0,
        },
    ]
}

#[test]
fn recipient_address_vector() {
    let recipient = SilentPaymentRecipient::from_secret_keys(
        SCAN.to_string(),
        SPEND.to_string(),
        Network::Bitcoin,
    )
    .unwrap();
    assert_eq!(recipient.get_address().address, ADDRESS);
}

#[test]
fn sending_vector() {
    let recipients = vec![PaymentRecipient { address: ADDRESS.to_string(), amount_sats: 1000 }];
    let outputs = try_create_silent_payment_outputs(inputs(), recipients).unwrap().unwrap();
    assert_eq!(outputs.len(), 1);
    assert_eq!(&outputs[0].pubkey_hex[2..], OUTPUT);
    assert_eq!(outputs[0].recipient_address, ADDRESS);
}

#[test]
fn scanning_vector() {
    let recipient = SilentPaymentRecipient::from_secret_keys(
        SCAN.to_string(),
        SPEND.to_string(),
        Network::Bitcoin,
    )
    .unwrap();
    let scanner = SilentPaymentScanner::watch_only(
        recipient.export_scan_secret_hex(),
        recipient.export_spend_pubkey_hex(),
    )
    .unwrap();
    let tweak_data = try_compute_sender_tweak_data(inputs()).unwrap().unwrap();
    let found = scanner
        .try_scan_transaction(vec![tweak_data], vec![OUTPUT.to_string()])
        .unwrap()
        .unwrap();
    assert_eq!(found.payments.len(), 1);
    assert_eq!(found.payments[0].output_index, 0);
    assert_eq!(found.payments[0].tweak_hex, TWEAK);
    assert_eq!(found.payments[0].label, None);
    let spendable = recipient.derive_spending_key(found.payments[0].clone()).unwrap();
    assert_eq!(&spendable.output_pubkey_hex()[2..], OUTPUT);
}
