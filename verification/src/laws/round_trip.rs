//! What is written is read back, and who holds the same keys has the same address.

use crate::address::address_of;
use crate::bip352::{is_key_text, lemma_key_text, point_from_hex, secret_from_hex};
use crate::bytes::be_bytes;
use crate::curve::{
    compressed_point, is_log, is_point, is_secret, lemma_log_of_point, lemma_point_log,
    lemma_scalar_bytes,
};
use crate::error::ErrorView;
use crate::network::Network;
use crate::recipient::{recipient_from_hex, RecipientView};
use crate::scanner::{scanner_from_hex, ScannerView};
use crate::spending::corresponding_key;
use crate::text::{digit_char, hex_bytes, hex_text, hex_value, leading_hex};
use vstd::prelude::*;
use vstd::utf8::{encode_utf8, is_ascii_chars_encode_utf8};

verus! {

/// Text of hexadecimal digits alone begins with as many digits as it is long.
proof fn lemma_all_hex(s: Seq<u8>)
    requires
        forall|i: int| 0 <= i < s.len() ==> hex_value(#[trigger] s[i]) is Some,
    ensures
        leading_hex(s) == s.len(),
    decreases s.len(),
{
    if s.len() > 0 {
        let rest = s.skip(1);
        assert forall|i: int| 0 <= i < rest.len() implies hex_value(#[trigger] rest[i]) is Some by {
            assert(rest[i] == s[i + 1]);
        }
        lemma_all_hex(rest);
    }
}

/// A digit is a digit of hexadecimal text, with its value.
proof fn lemma_digit(d: nat)
    requires
        d < 16,
    ensures
        '\0' <= digit_char(d) <= '\u{7f}',
        hex_value(digit_char(d) as u8) == Some(d),
{
}

/// Bytes that are written as hexadecimal text are read back.
pub proof fn law_hex_round_trip(bytes: Seq<u8>)
    ensures
        hex_bytes(encode_utf8(hex_text(bytes))) == Some(bytes),
{
    let text = hex_text(bytes);
    assert forall|i: int| 0 <= i < text.len() implies '\0' <= #[trigger] text[i] <= '\u{7f}' by {
        lemma_digit(bytes[i / 2] as nat / 16);
        lemma_digit(bytes[i / 2] as nat % 16);
    }
    is_ascii_chars_encode_utf8(text);
    let utf8 = encode_utf8(text);
    assert forall|i: int| 0 <= i < utf8.len() implies hex_value(#[trigger] utf8[i]) is Some by {
        assert(text[i] as u8 == utf8[i]);
        lemma_digit(bytes[i / 2] as nat / 16);
        lemma_digit(bytes[i / 2] as nat % 16);
    }
    lemma_all_hex(utf8);
    let back = hex_bytes(utf8).unwrap();
    assert forall|i: int| 0 <= i < bytes.len() implies back[i] == bytes[i] by {
        assert(text[2 * i] as u8 == utf8[2 * i]);
        assert(text[2 * i + 1] as u8 == utf8[2 * i + 1]);
        lemma_digit(bytes[i] as nat / 16);
        lemma_digit(bytes[i] as nat % 16);
    }
    assert(back =~= bytes);
}

/// A secret key that is written as hexadecimal text is read back.
pub proof fn law_secret_round_trip(key: nat, prefix: Seq<char>)
    requires
        is_secret(key),
    ensures
        secret_from_hex(hex_text(be_bytes(key, 32)), prefix) == Ok::<_, ErrorView>(key),
{
    lemma_scalar_bytes(key);
    law_hex_round_trip(be_bytes(key, 32));
}

/// A public key that is written as hexadecimal text is read back.
pub proof fn law_point_round_trip(point: Seq<u8>, prefix: Seq<char>)
    requires
        is_point(point),
    ensures
        point_from_hex(hex_text(point), prefix) == Ok::<_, ErrorView>(point),
{
    law_hex_round_trip(point);
}

/// The exported secrets of a recipient restore it.
pub proof fn law_recipient_round_trip(recipient: RecipientView)
    requires
        recipient.wf(),
    ensures
        recipient_from_hex(
            hex_text(be_bytes(recipient.scan, 32)),
            hex_text(be_bytes(recipient.spend, 32)),
            recipient.network,
        ) == Ok::<_, ErrorView>(recipient),
{
    law_secret_round_trip(recipient.scan, "Invalid scan key: "@);
    law_secret_round_trip(recipient.spend, "Invalid spend key: "@);
}

/// The scanner of a recipient: its scan secret and its spend public key.
pub open spec fn scanner_of(recipient: RecipientView) -> ScannerView {
    ScannerView { scan: recipient.scan, spend_public: recipient.spend_public() }
}

/// The exported scan secret and spend public key of a recipient make its scanner, which looks for
/// payments to the recipient's spend key.
pub proof fn law_scanner_of_recipient(recipient: RecipientView)
    requires
        recipient.wf(),
    ensures
        scanner_from_hex(
            hex_text(be_bytes(recipient.scan, 32)),
            hex_text(recipient.spend_public()),
        ) == Ok::<_, ErrorView>(scanner_of(recipient)),
        scanner_of(recipient).wf(),
        scanner_of(recipient).spend() == recipient.spend,
{
    law_secret_round_trip(recipient.scan, "Invalid scan key: "@);
    law_point_round_trip(recipient.spend_public(), "Invalid spend pubkey: "@);
    lemma_log_of_point(recipient.spend);
}

/// The stored text of a spendable output restores it.
pub proof fn law_spendable_output_round_trip(key: nat)
    requires
        is_secret(key),
        is_point(compressed_point(key)),
    ensures
        corresponding_key(hex_text(be_bytes(key, 32)), hex_text(compressed_point(key))) == Ok::<
            _,
            ErrorView,
        >(key),
{
    law_secret_round_trip(key, "Invalid secp256k1 secret key: "@);
    law_point_round_trip(compressed_point(key), "Invalid compressed pubkey: "@);
}

/// A spendable output is not restored from the text of a public key that is not its own.
pub proof fn law_spendable_output_mismatch(key: nat, point: Seq<u8>)
    requires
        is_secret(key),
        is_point(point),
        point != compressed_point(key),
    ensures
        corresponding_key(hex_text(be_bytes(key, 32)), hex_text(point)) == Err::<nat, _>(
            ErrorView::InvalidKey("spending_key_hex does not correspond to output_pubkey_hex"@),
        ),
{
    law_secret_round_trip(key, "Invalid secp256k1 secret key: "@);
    law_point_round_trip(point, "Invalid compressed pubkey: "@);
}

/// A recipient and its scanner have one address.
pub proof fn law_scanner_address(recipient: RecipientView)
    ensures
        address_of(
            scanner_of(recipient).scan_public(),
            scanner_of(recipient).spend_public,
            recipient.network,
        ) == recipient.address(),
{
}

/// The public test networks share their addresses: both the text and the keys are the same.
pub proof fn law_test_networks_share_addresses(scan: Seq<u8>, spend: Seq<u8>)
    ensures
        address_of(scan, spend, Network::Testnet).address == address_of(
            scan,
            spend,
            Network::Signet,
        ).address,
        address_of(scan, spend, Network::Testnet).address == address_of(
            scan,
            spend,
            Network::Testnet4,
        ).address,
{
}

/// A labeled address has the scan key of the standard address, and another spend key.
pub proof fn law_labeled_address_differs(recipient: RecipientView, m: nat)
    requires
        recipient.wf(),
        recipient.labeled_address(m) is Ok,
    ensures
        recipient.labeled_address(m)->Ok_0.scan_pubkey_hex == recipient.address().scan_pubkey_hex,
        recipient.labeled_address(m)->Ok_0.spend_pubkey_hex
            != recipient.address().spend_pubkey_hex,
{
    let spend = compressed_point(recipient.labeled_spend(m));
    law_hex_round_trip(spend);
    law_hex_round_trip(recipient.spend_public());
    if spend == recipient.spend_public() {
        lemma_log_of_point(recipient.spend);
        assert(is_log(spend, recipient.labeled_spend(m)));
        lemma_point_log(spend);
        assert(recipient.labeled_spend(m) == recipient.spend);
    }
}

/// A public key has two texts, of 66 and of 64 digits in small letters. The shorter is the longer
/// without its first two digits, which are 02 or 03. The longer is read back.
pub proof fn law_key_texts(point: Seq<u8>, prefix: Seq<char>, i: int)
    requires
        is_point(point),
        0 <= i < 66,
    ensures
        is_key_text(hex_text(point)),
        hex_text(point.skip(1)).len() == 64,
        hex_text(point.skip(1)) == hex_text(point).skip(2),
        '0' <= hex_text(point)[i] <= '9' || 'a' <= hex_text(point)[i] <= 'f',
        point_from_hex(hex_text(point), prefix) == Ok::<_, ErrorView>(point),
{
    lemma_key_text(point);
    law_point_round_trip(point, prefix);
    lemma_digit(point[i / 2] as nat / 16);
    lemma_digit(point[i / 2] as nat % 16);
}

} // verus!
