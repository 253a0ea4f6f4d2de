//! Addresses: standard, labeled and parsed.

use silent_payment::address::parse_sp_address;
use silent_payment::{
    Network, PublicKey, SilentPaymentError, SilentPaymentRecipient, SilentPaymentScanner,
};
use std::sync::Arc;

const SCAN: &str = "0f694e068028a717f8af6b9411f9a133dd3565258714cc226594b34db90c1f2c";
const SPEND: &str = "9d6ad855ce3417ef84e836892e5a56392bfba05fa5d97ccea30e266f540e08b3";
const ADDRESS: &str = "sp1qqgste7k9hx0qftg6qmwlkqtwuy6cycyavzmzj85c6qdfhjdpdjtdgqjuexzk6murw56suy3e0rd2cgqvycxttddwsvgxe2usfpxumr70xc9pkqwv";

fn recipient_on(network: Network) -> Arc<SilentPaymentRecipient> {
    SilentPaymentRecipient::from_secret_keys(SCAN.to_string(), SPEND.to_string(), network).unwrap()
}

fn secp_key(hex_text: &str) -> secp256k1::SecretKey {
    secp256k1::SecretKey::from_slice(&hex::decode(hex_text).unwrap()).unwrap()
}

fn secp_point(hex_text: &str) -> String {
    let secp = secp256k1::Secp256k1::new();
    hex::encode(secp256k1::PublicKey::from_secret_key(&secp, &secp_key(hex_text)).serialize())
}

fn address_error(address: &str) -> String {
    let parsed: Result<(PublicKey, PublicKey), SilentPaymentError> = parse_sp_address(address);
    match parsed {
        Ok(_) => panic!("expected an error"),
        Err(e) => e.to_text(),
    }
}

#[test]
fn address_holds_its_keys() {
    let address = recipient_on(Network::Bitcoin).get_address();
    assert_eq!(address.address, ADDRESS);
    assert_eq!(address.scan_pubkey_hex, secp_point(SCAN));
    assert_eq!(address.spend_pubkey_hex, secp_point(SPEND));
    assert_eq!(address.network, Network::Bitcoin);
    let (scan, spend) = parse_sp_address(ADDRESS).ok().unwrap();
    assert_eq!(hex::encode(scan.serialize()), address.scan_pubkey_hex);
    assert_eq!(hex::encode(spend.serialize()), address.spend_pubkey_hex);
}

#[test]
fn address_prefixes() {
    let prefix = |network: Network| {
        let address = recipient_on(network).get_address().address;
        address[..address.find('1').unwrap() + 2].to_string()
    };
    assert_eq!(prefix(Network::Bitcoin), "sp1q");
    assert_eq!(prefix(Network::Testnet), "tsp1q");
    assert_eq!(prefix(Network::Testnet4), "tsp1q");
    assert_eq!(prefix(Network::Signet), "tsp1q");
    assert_eq!(prefix(Network::Regtest), "sprt1q");
}

#[test]
fn test_networks_share_addresses() {
    let testnet = recipient_on(Network::Testnet).get_address();
    let signet = recipient_on(Network::Signet).get_address();
    assert_eq!(testnet.address, signet.address);
    assert_ne!(testnet.network, signet.network);
    assert_eq!(testnet.address, recipient_on(Network::Testnet4).get_address().address);
    assert_ne!(testnet.address, recipient_on(Network::Regtest).get_address().address);
}

#[test]
fn labeled_address_matches_outside_receiver() {
    let recipient = recipient_on(Network::Bitcoin);
    for m in [1u32, 2, 3, 1001337, u32::MAX] {
        let label = silentpayments::receiving::Label::new(secp_key(SCAN), m);
        let secp = secp256k1::Secp256k1::new();
        let spend = secp256k1::PublicKey::from_secret_key(&secp, &secp_key(SPEND))
            .add_exp_tweak(&secp, label.as_inner())
            .unwrap();
        let labeled = recipient.get_labeled_address(m).unwrap();
        assert_eq!(labeled.spend_pubkey_hex, hex::encode(spend.serialize()));
        assert_eq!(labeled.scan_pubkey_hex, secp_point(SCAN));
        assert_ne!(labeled.spend_pubkey_hex, secp_point(SPEND));
        assert!(labeled.address.starts_with("sp1q"));
        let (scan_key, spend_key) = parse_sp_address(&labeled.address).ok().unwrap();
        assert_eq!(hex::encode(scan_key.serialize()), labeled.scan_pubkey_hex);
        assert_eq!(hex::encode(spend_key.serialize()), labeled.spend_pubkey_hex);
    }
}

#[test]
fn scanner_and_recipient_have_one_address() {
    let recipient = recipient_on(Network::Signet);
    let scanner = SilentPaymentScanner::watch_only(
        recipient.export_scan_secret_hex(),
        recipient.export_spend_pubkey_hex(),
    )
    .unwrap();
    let a = recipient.get_address();
    let b = scanner.get_address(Network::Signet);
    assert_eq!(a.address, b.address);
    assert_eq!(a.scan_pubkey_hex, b.scan_pubkey_hex);
    assert_eq!(a.spend_pubkey_hex, b.spend_pubkey_hex);
    assert_eq!(b.network, Network::Signet);
}

#[test]
fn exported_secrets_restore_the_recipient() {
    let recipient = recipient_on(Network::Regtest);
    assert_eq!(recipient.export_scan_secret_hex(), SCAN);
    assert_eq!(recipient.export_spend_secret_hex(), SPEND);
    assert_eq!(recipient.export_spend_pubkey_hex(), secp_point(SPEND));
    let restored = SilentPaymentRecipient::from_secret_keys(
        recipient.export_scan_secret_hex(),
        recipient.export_spend_secret_hex(),
        Network::Regtest,
    )
    .unwrap();
    assert_eq!(restored.get_address().address, recipient.get_address().address);
}

#[test]
fn random_recipients_differ() {
    let a = SilentPaymentRecipient::generate(Network::Testnet).unwrap();
    let b = SilentPaymentRecipient::generate(Network::Testnet).unwrap();
    assert_ne!(a.export_scan_secret_hex(), b.export_scan_secret_hex());
    assert_ne!(a.export_scan_secret_hex(), a.export_spend_secret_hex());
    assert_eq!(a.get_address().network, Network::Testnet);
    assert_eq!(a.export_spend_pubkey_hex(), secp_point(&a.export_spend_secret_hex()));
}

#[test]
fn bad_secrets_are_named() {
    let zero = "00".repeat(32);
    let scan = SilentPaymentRecipient::from_secret_keys(
        zero.clone(),
        zero.clone(),
        Network::Bitcoin,
    );
    assert_eq!(
        scan.err().unwrap().to_text(),
        "Invalid key: Invalid scan key: malformed or out-of-range secret key"
    );
    let spend =
        SilentPaymentRecipient::from_secret_keys(SCAN.to_string(), zero, Network::Bitcoin);
    assert_eq!(
        spend.err().unwrap().to_text(),
        "Invalid key: Invalid spend key: malformed or out-of-range secret key"
    );
}

#[test]
fn bad_scanner_keys_are_named() {
    let scan = SilentPaymentScanner::watch_only("ff".repeat(32), secp_point(SPEND));
    assert_eq!(
        scan.err().unwrap().to_text(),
        "Invalid key: Invalid scan key: malformed or out-of-range secret key"
    );
    let spend = SilentPaymentScanner::watch_only(SCAN.to_string(), "00".repeat(33));
    assert_eq!(
        spend.err().unwrap().to_text(),
        "Invalid key: Invalid spend pubkey: malformed public key"
    );
}

#[test]
fn capital_letters_are_accepted() {
    let (scan, _) = parse_sp_address(&ADDRESS.to_uppercase()).ok().unwrap();
    assert_eq!(hex::encode(scan.serialize()), secp_point(SCAN));
}

#[test]
fn other_addresses_are_refused() {
    // One letter changed.
    assert_eq!(
        address_error(&ADDRESS.replace("pkqwv", "pkqwq")),
        "Invalid address: invalid checksum"
    );
    // The human-readable part of another kind of address.
    assert_eq!(
        address_error("bc1qqgste7k9hx0qftg6qmwlkqtwuy6cycyavzmzj85c6qdfhjdpdjtdgqjuexzk6murw56suy3e0rd2cgqvycxttddwsvgxe2usfpxumr70xc9kwjsk"),
        "Invalid address: Wrong prefix, expected \"sp\", \"tsp\", or \"sprt\", got \"bc\""
    );
    // One digit less.
    assert_eq!(
        address_error("sp1qqgste7k9hx0qftg6qmwlkqtwuy6cycyavzmzj85c6qdfhjdpdjtdgqjuexzk6murw56suy3e0rd2cgqvycxttddwsvgxe2usfpxumr70xy006st"),
        "Invalid address: Address length is wrong"
    );
    // Another version.
    assert!(address_error("sp1pqgste7k9hx0qftg6qmwlkqtwuy6cycyavzmzj85c6qdfhjdpdjtdgqjuexzk6murw56suy3e0rd2cgqvycxttddwsvgxe2usfpxumr70xcrxveqr")
        .starts_with("Invalid address: "));
    assert!(address_error("").starts_with("Invalid address: "));
}

#[test]
fn plain_bech32_is_refused() {
    // The same keys, with the older checksum.
    assert_eq!(
        address_error("sp1qqgste7k9hx0qftg6qmwlkqtwuy6cycyavzmzj85c6qdfhjdpdjtdgqjuexzk6murw56suy3e0rd2cgqvycxttddwsvgxe2usfpxumr70xcsaxvtw"),
        "Invalid address: Encoding must be bech32m"
    );
}
