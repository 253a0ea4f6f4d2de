//! Silent payment addresses.

use crate::bip352::{is_key_text, lemma_key_text};
use crate::curve::{is_point, PublicKey};
use crate::error::{invalid_address, meets, ErrorView, SilentPaymentError};
use crate::network::{to_sp_network, Network, SpNetwork};
use crate::text::{hex_encode, hex_text};
use vstd::prelude::*;
use vstd::utf8::encode_utf8;

verus! {

/// A silent payment address with its public keys.
#[derive(Debug, Clone)]
pub struct SilentPaymentAddress {
    /// The encoded address. Share this with senders.
    pub address: String,
    /// The compressed scan public key, as 66 hexadecimal digits.
    pub scan_pubkey_hex: String,
    /// The compressed spend public key, as 66 hexadecimal digits.
    pub spend_pubkey_hex: String,
    /// The network that the address is valid for.
    pub network: Network,
}

/// The model of an address.
#[verifier::ext_equal]
pub struct AddressView {
    pub address: Seq<char>,
    pub scan_pubkey_hex: Seq<char>,
    pub spend_pubkey_hex: Seq<char>,
    pub network: Network,
}

impl View for SilentPaymentAddress {
    type V = AddressView;

    open spec fn view(&self) -> AddressView {
        AddressView {
            address: self.address@,
            scan_pubkey_hex: self.scan_pubkey_hex@,
            spend_pubkey_hex: self.spend_pubkey_hex@,
            network: self.network,
        }
    }
}

/// The version of an address.
#[derive(Debug, Clone, Copy, PartialEq, Eq, Structural)]
pub enum SpVersion {
    ZERO,
}

impl View for SpVersion {
    type V = nat;

    open spec fn view(&self) -> nat {
        0
    }
}

/// The text of the address with the given scan key, spend key, human-readable part and version.
pub uninterp spec fn address_text(
    scan: Seq<u8>,
    spend: Seq<u8>,
    prefix: Seq<char>,
    version: nat,
) -> Seq<char>;

/// The scan key, spend key and human-readable part of an address, or the text of the error.
pub uninterp spec fn address_parts(address: Seq<char>) -> Result<
    (Seq<u8>, Seq<u8>, Seq<char>),
    Seq<char>,
>;

/// Bytes with the capital letters of ASCII replaced by small ones.
pub open spec fn lower_case(s: Seq<u8>) -> Seq<u8> {
    Seq::new(
        s.len(),
        |i: int|
            if 65 <= s[i] <= 90 {
                (s[i] + 32) as u8
            } else {
                s[i]
            },
    )
}

/// The address with the given keys on a network.
pub open spec fn address_of(scan: Seq<u8>, spend: Seq<u8>, network: Network) -> AddressView {
    AddressView {
        address: address_text(scan, spend, network.sp_network()@, SpVersion::ZERO@),
        scan_pubkey_hex: hex_text(scan),
        spend_pubkey_hex: hex_text(spend),
        network,
    }
}

/// The scan and spend key of an address.
///
/// What decodes has to be the bech32m text of its parts, in small or in capital letters: a plain
/// bech32 checksum is not enough.
pub open spec fn address_keys(address: Seq<char>) -> Result<(Seq<u8>, Seq<u8>), ErrorView> {
    match address_parts(address) {
        Err(text) => Err(ErrorView::InvalidAddress(text)),
        Ok((scan, spend, prefix)) => if lower_case(encode_utf8(address)) == encode_utf8(
            address_text(scan, spend, prefix, SpVersion::ZERO@),
        ) {
            Ok((scan, spend))
        } else {
            Err(ErrorView::InvalidAddress("Encoding must be bech32m"@))
        },
    }
}

/// Whether `text`, in small or in capital letters, is the address with the given keys on a network:
/// that of version zero, which begins with the human-readable part, the separator and the digit of
/// the version.
pub open spec fn is_address_text(
    text: Seq<char>,
    scan: Seq<u8>,
    spend: Seq<u8>,
    network: SpNetwork,
) -> bool {
    let canonical = address_text(scan, spend, network@, SpVersion::ZERO@);
    &&& lower_case(encode_utf8(text)) == encode_utf8(canonical)
    &&& (network@ + "1q"@).is_prefix_of(canonical)
}

/// Calls `silentpayments::SilentPaymentAddress::new` and its conversion into a string.
///
/// The text is a function of the parts. It is in small letters, begins with the human-readable
/// part, the separator and the digit of version zero, and decodes to the parts it was made of.
#[verifier::external_body]
fn encode_address(
    scan: &PublicKey,
    spend: &PublicKey,
    network: SpNetwork,
    version: SpVersion,
) -> (r: String)
    ensures
        r@ == address_text(scan@, spend@, network@, version@),
        match address_parts(r@) {
            Ok(parts) => parts == (scan@, spend@, network@),
            Err(_) => false,
        },
        lower_case(encode_utf8(r@)) == encode_utf8(r@),
        (network@ + "1q"@).is_prefix_of(r@),
{
    let scan = secp256k1::PublicKey::from_slice(&scan.bytes).unwrap();
    let spend = secp256k1::PublicKey::from_slice(&spend.bytes).unwrap();
    let network = match network {
        SpNetwork::Mainnet => silentpayments::Network::Mainnet,
        SpNetwork::Testnet => silentpayments::Network::Testnet,
        SpNetwork::Regtest => silentpayments::Network::Regtest,
    };
    let version = match version {
        SpVersion::ZERO => silentpayments::SpVersion::ZERO,
    };
    silentpayments::SilentPaymentAddress::new(scan, spend, network, version).into()
}

/// Calls `silentpayments::SilentPaymentAddress::try_from`.
///
/// The parts are a function of the text; both keys are points. The error is handed out as the text
/// that it displays.
#[verifier::external_body]
fn decode_address(address: &str) -> (r: Result<(PublicKey, PublicKey, SpNetwork), String>)
    ensures
        match address_parts(address@) {
            Ok(parts) => r matches Ok(p) && (p.0@, p.1@, p.2@) == parts && is_point(p.0@)
                && is_point(p.1@),
            Err(m) => r matches Err(text) && text@ == m,
        },
{
    let decoded = silentpayments::SilentPaymentAddress::try_from(address).map_err(
        |e| e.to_string(),
    )?;
    let network = match decoded.get_network() {
        silentpayments::Network::Mainnet => SpNetwork::Mainnet,
        silentpayments::Network::Testnet => SpNetwork::Testnet,
        silentpayments::Network::Regtest => SpNetwork::Regtest,
    };
    let scan = PublicKey { bytes: decoded.get_scan_key().serialize() };
    Ok((scan, PublicKey { bytes: decoded.get_spend_key().serialize() }, network))
}

/// Whether `text` in small letters is `lower`.
fn is_lower_case_of(text: &str, lower: &str) -> (r: bool)
    ensures
        r == (lower_case(encode_utf8(text@)) == encode_utf8(lower@)),
{
    let a: &[u8] = text.as_bytes();
    let b: &[u8] = lower.as_bytes();
    if a.len() != b.len() {
        return false;
    }
    let mut i: usize = 0;
    while i < a.len()
        invariant
            i <= a@.len(),
            a@ == encode_utf8(text@),
            b@ == encode_utf8(lower@),
            a@.len() == b@.len(),
            forall|j: int| 0 <= j < i ==> lower_case(a@)[j] == b@[j],
        decreases a@.len() - i,
    {
        let c: u8 = if 65 <= a[i] && a[i] <= 90 {
            a[i] + 32
        } else {
            a[i]
        };
        if c != b[i] {
            assert(lower_case(a@)[i as int] != b@[i as int]);
            return false;
        }
        i = i + 1;
    }
    assert(lower_case(a@) =~= b@);
    true
}

/// The address with the given keys on a network.
pub fn build_address(scan: &PublicKey, spend: &PublicKey, network: Network) -> (r:
    SilentPaymentAddress)
    ensures
        r@ == address_of(scan@, spend@, network),
        address_keys(r.address@) matches Ok(keys) && keys == (scan@, spend@),
        (network.sp_network()@ + "1q"@).is_prefix_of(r.address@),
        is_key_text(r.scan_pubkey_hex@),
        is_key_text(r.spend_pubkey_hex@),
{
    proof {
        use_type_invariant(*scan);
        use_type_invariant(*spend);
        lemma_key_text(scan@);
        lemma_key_text(spend@);
    }
    let address: String = encode_address(scan, spend, to_sp_network(&network), SpVersion::ZERO);
    SilentPaymentAddress {
        address,
        scan_pubkey_hex: hex_encode(scan.serialize().as_slice()),
        spend_pubkey_hex: hex_encode(spend.serialize().as_slice()),
        network,
    }
}

/// Reads the scan and the spend key of an address.
pub fn parse_sp_address(addr: &str) -> (r: Result<(PublicKey, PublicKey), SilentPaymentError>)
    ensures
        meets(r, address_keys(addr@)),
        r matches Ok(keys) ==> exists|network: SpNetwork| #[trigger]
            is_address_text(addr@, keys.0@, keys.1@, network),
{
    let (scan, spend, network): (PublicKey, PublicKey, SpNetwork) = match decode_address(addr) {
        Ok(parts) => parts,
        Err(text) => return Err(invalid_address(text.as_str())),
    };
    let canonical: String = encode_address(&scan, &spend, network, SpVersion::ZERO);
    if is_lower_case_of(addr, canonical.as_str()) {
        assert(is_address_text(addr@, scan@, spend@, network));
        Ok((scan, spend))
    } else {
        Err(invalid_address("Encoding must be bech32m"))
    }
}

} // verus!
