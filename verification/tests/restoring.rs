//! Restoring a recipient from a mnemonic phrase or a descriptor.

use bdk_wallet::bitcoin::bip32::{DerivationPath, Xpriv};
use bdk_wallet::keys::bip39::Mnemonic;
use silent_payment::bip352::parse_secret_key_hex;
use silent_payment::{
    Descriptor, DescriptorSecretKey, ExtendedKey, Network, NetworkKind, SilentPaymentError,
    SilentPaymentRecipient,
};
use std::str::FromStr;

const PHRASE: &str = "abandon abandon abandon abandon abandon abandon abandon abandon abandon abandon abandon about";

fn master() -> Xpriv {
    let mnemonic = Mnemonic::from_str(PHRASE).unwrap();
    Xpriv::new_master(bdk_wallet::bitcoin::Network::Bitcoin, &mnemonic.to_seed("")).unwrap()
}

fn outside_secret(path: &str) -> String {
    let secp = secp256k1::Secp256k1::new();
    let path = DerivationPath::from_str(path).unwrap();
    hex::encode(master().derive_priv(&secp, &path).unwrap().private_key.secret_bytes())
}

fn bytes_of(text: &str) -> [u8; 32] {
    hex::decode(text).unwrap().try_into().unwrap()
}

fn extended_key(key: &str, chain_code: &str, depth: u8) -> ExtendedKey {
    ExtendedKey {
        network: NetworkKind::Main,
        depth,
        chain_code: bytes_of(chain_code),
        private_key: parse_secret_key_hex(key).ok().unwrap(),
    }
}

fn root_of(xpriv: Xpriv, has_origin: bool) -> DescriptorSecretKey {
    DescriptorSecretKey::XPrv {
        has_origin,
        xkey: extended_key(
            &hex::encode(xpriv.private_key.secret_bytes()),
            &hex::encode(xpriv.chain_code.to_bytes()),
            xpriv.depth,
        ),
    }
}

fn refusal(r: Option<Result<SilentPaymentRecipient, SilentPaymentError>>) -> String {
    match r.unwrap() {
        Ok(_) => panic!("expected an error"),
        Err(e) => e.to_text(),
    }
}

#[test]
fn bip32_vector() {
    let root = extended_key(
        "e8f32e723decf4051aefac8e2c93c9c5b214313817cdb01a1494b917c8436b35",
        "873dff81c02f525623fd1fe5167eac3a55a049de3d314bb42ee227ffed37d508",
        0,
    );
    let hardened = root.derive(&vec![0x8000_0000]).unwrap().unwrap();
    assert_eq!(
        hex::encode(hardened.private_key.secret_bytes()),
        "edb2e14f9ee77d26dd93b4ecede8d16ed408ce149b6cd80b0715a2d911a0afea"
    );
    assert_eq!(
        hex::encode(hardened.chain_code),
        "47fdacbd0f1097043b78c63c20c34ef4ed9a111d980047ad16282c7ae6236141"
    );
    assert_eq!(hardened.depth, 1);
    assert_eq!(&root.child_code(0x8000_0000)[32..], &hardened.chain_code[..]);
    let normal = root.derive(&vec![0x8000_0000, 1]).unwrap().unwrap();
    assert_eq!(
        hex::encode(normal.private_key.secret_bytes()),
        "3c6cb8d0f6a264c91ea8b5030fadaa8e538b020f0a387421a12de9319dc93368"
    );
    assert_eq!(normal.depth, 2);
    assert_eq!(&hardened.child_code(1)[32..], &normal.chain_code[..]);
    let itself = root.derive(&vec![]).unwrap().unwrap();
    assert_eq!(itself.chain_code, root.chain_code);
}

#[test]
fn depth_is_bounded() {
    let deep = extended_key(
        "e8f32e723decf4051aefac8e2c93c9c5b214313817cdb01a1494b917c8436b35",
        "873dff81c02f525623fd1fe5167eac3a55a049de3d314bb42ee227ffed37d508",
        255,
    );
    assert_eq!(
        deep.derive(&vec![0]).unwrap().err().unwrap(),
        "cannot derive child of depth 256 or higher"
    );
}

#[test]
fn mnemonic_uses_the_two_branches() {
    let recipient =
        SilentPaymentRecipient::try_from_mnemonic(PHRASE.to_string(), Network::Bitcoin, 0)
            .unwrap()
            .unwrap();
    assert_eq!(recipient.export_spend_secret_hex(), outside_secret("m/352h/0h/0h/0/0"));
    assert_eq!(recipient.export_scan_secret_hex(), outside_secret("m/352h/0h/0h/1/0"));
    assert_eq!(recipient.get_address().network, Network::Bitcoin);
}

#[test]
fn coin_and_account_are_in_the_path() {
    let recipient =
        SilentPaymentRecipient::try_from_mnemonic(PHRASE.to_string(), Network::Signet, 2147483647)
            .unwrap()
            .unwrap();
    assert_eq!(recipient.export_spend_secret_hex(), outside_secret("m/352h/1h/2147483647h/0/0"));
    assert_eq!(recipient.export_scan_secret_hex(), outside_secret("m/352h/1h/2147483647h/1/0"));
}

#[test]
fn account_out_of_range_is_refused() {
    assert_eq!(
        refusal(SilentPaymentRecipient::try_from_mnemonic(
            PHRASE.to_string(),
            Network::Bitcoin,
            2147483648
        )),
        "Cryptography error: Invalid derivation path: child number 2147483648 is invalid (not within [0, 2^31 - 1])"
    );
}

#[test]
fn other_phrases_are_refused() {
    let text = refusal(SilentPaymentRecipient::try_from_mnemonic(
        PHRASE.replace("about", "abandon"),
        Network::Bitcoin,
        0,
    ));
    let outside = Mnemonic::from_str(&PHRASE.replace("about", "abandon")).err().unwrap();
    assert_eq!(text, format!("Invalid key: Invalid BIP-39 mnemonic: {outside}"));
}

#[test]
fn phrase_and_descriptor_agree() {
    let phrase = SilentPaymentRecipient::try_from_mnemonic(PHRASE.to_string(), Network::Bitcoin, 3)
        .unwrap()
        .unwrap();
    let root = root_of(master(), false);
    let key = SilentPaymentRecipient::try_from_descriptor_secret_key(&root, Network::Bitcoin, 3)
        .unwrap()
        .unwrap();
    let descriptor = Descriptor { key_map: vec![root, DescriptorSecretKey::Single] };
    let embedded = SilentPaymentRecipient::try_from_descriptor(&descriptor, Network::Bitcoin, 3)
        .unwrap()
        .unwrap();
    assert_eq!(phrase.get_address().address, key.get_address().address);
    assert_eq!(phrase.get_address().address, embedded.get_address().address);
    assert_eq!(phrase.export_spend_secret_hex(), embedded.export_spend_secret_hex());
}

#[test]
fn test_networks_share_secrets() {
    let root = root_of(master(), false);
    let on = |network: Network| {
        SilentPaymentRecipient::try_from_descriptor_secret_key(&root, network, 0)
            .unwrap()
            .unwrap()
            .export_scan_secret_hex()
    };
    assert_eq!(on(Network::Testnet), on(Network::Regtest));
    assert_ne!(on(Network::Testnet), on(Network::Bitcoin));
}

#[test]
fn derived_keys_are_refused() {
    let secp = secp256k1::Secp256k1::new();
    let path = DerivationPath::from_str("m/84h/0h/0h").unwrap();
    let derived = master().derive_priv(&secp, &path).unwrap();
    assert_eq!(
        refusal(SilentPaymentRecipient::try_from_descriptor_secret_key(
            &root_of(derived, false),
            Network::Bitcoin,
            0
        )),
        "Invalid key: Expected a root-level key (depth 0), found depth 3. This key has already been derived and cannot be used to reach a different BIP-352 branch of the same seed."
    );
    let text = refusal(SilentPaymentRecipient::try_from_descriptor_secret_key(
        &root_of(derived, true),
        Network::Bitcoin,
        0,
    ));
    assert_eq!(
        text,
        "Invalid key: Key carries origin/fingerprint metadata — it has already been derived away from its root. Silent Payments must derive from the SAME root as your BDK wallet: pass the DescriptorSecretKey from DescriptorSecretKey::new(...) directly, before any BIP-84/BIP-86 derivation."
    );
}

#[test]
fn depth_is_told_in_decimal() {
    let key = DescriptorSecretKey::XPrv {
        has_origin: false,
        xkey: extended_key(
            "e8f32e723decf4051aefac8e2c93c9c5b214313817cdb01a1494b917c8436b35",
            "873dff81c02f525623fd1fe5167eac3a55a049de3d314bb42ee227ffed37d508",
            209,
        ),
    };
    let text = refusal(SilentPaymentRecipient::try_from_descriptor_secret_key(
        &key,
        Network::Bitcoin,
        0,
    ));
    assert!(text.starts_with("Invalid key: Expected a root-level key (depth 0), found depth 209. This"));
}

#[test]
fn other_kinds_of_keys_are_refused() {
    assert_eq!(
        refusal(SilentPaymentRecipient::try_from_descriptor_secret_key(
            &DescriptorSecretKey::Single,
            Network::Bitcoin,
            0
        )),
        "Invalid key: Silent Payments require an extended (xprv) key, not a single non-extended key."
    );
    assert_eq!(
        refusal(SilentPaymentRecipient::try_from_descriptor_secret_key(
            &DescriptorSecretKey::MultiXPrv,
            Network::Bitcoin,
            0
        )),
        "Invalid key: Multi-path extended keys are not supported for Silent Payments."
    );
}

#[test]
fn watch_only_descriptor_is_refused() {
    assert_eq!(
        refusal(SilentPaymentRecipient::try_from_descriptor(
            &Descriptor { key_map: vec![] },
            Network::Bitcoin,
            0
        )),
        "Invalid key: Descriptor has no embedded secret key — it appears to be watch-only (public-key-only). Silent Payments require access to the private key material."
    );
}
