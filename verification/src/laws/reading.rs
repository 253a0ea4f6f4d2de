//! What text stands for, and what is said of text that stands for nothing.

use crate::address::{address_keys, address_of, address_parts, address_text, lower_case};
use crate::bip352::{bytes_32, point_from_hex, secret_from_hex};
use crate::bytes::{be_bytes, be_nat, lemma_be_bytes_len, lemma_be_bytes_of_nat};
use crate::curve::{
    compressed_point, curve_order, is_point, key_sum_text, lemma_scalar_bytes, public_key_text,
    secret_key_text, tweak_text,
};
use crate::error::{ErrorView, SilentPaymentError};
use crate::network::{Network, NetworkKind};
use crate::recipient::{recipient_from_hex, RecipientView};
use crate::scanner::{scanner_from_hex, ScannerView};
use crate::spending::corresponding_key;
use crate::text::{
    decimal, digit_char, hex_bytes, hex_character_message, hex_error, hex_text, hex_value,
    leading_hex,
};
use vstd::arithmetic::div_mod::lemma_div_denominator;
use vstd::arithmetic::power::{lemma_pow0, lemma_pow_positive, pow};
use vstd::prelude::*;
use vstd::utf8::encode_utf8;

verus! {

/// Bytes are written as two hexadecimal digits each, the upper half first.
pub proof fn law_hex_digits(bytes: Seq<u8>, i: int)
    requires
        0 <= i < bytes.len(),
    ensures
        hex_text(bytes).len() == 2 * bytes.len(),
        hex_text(bytes)[2 * i] == "0123456789abcdef"@[bytes[i] as int / 16],
        hex_text(bytes)[2 * i + 1] == "0123456789abcdef"@[bytes[i] as int % 16],
{
    reveal_strlit("0123456789abcdef");
    lemma_sixteen(bytes[i] as nat / 16);
    lemma_sixteen(bytes[i] as nat % 16);
}

/// The sixteen digits.
proof fn lemma_sixteen(d: nat)
    requires
        d < 16,
    ensures
        digit_char(d) == "0123456789abcdef"@[d as int],
        (digit_char(d) as u8 == 48 + d && d < 10) || (digit_char(d) as u8 == 87 + d && d >= 10),
        hex_value(digit_char(d) as u8) == Some(d),
{
    reveal_strlit("0123456789abcdef");
}

/// Whether a byte is a hexadecimal digit of either case.
pub open spec fn is_digit(c: u8) -> bool {
    48 <= c <= 57 || 65 <= c <= 70 || 97 <= c <= 102
}

/// As many bytes are counted as digits stand before the first other byte.
proof fn lemma_leading_hex(s: Seq<u8>)
    ensures
        leading_hex(s) <= s.len(),
        forall|j: int| 0 <= j < leading_hex(s) ==> is_digit(#[trigger] s[j]),
        leading_hex(s) < s.len() ==> !is_digit(s[leading_hex(s) as int]),
    decreases s.len(),
{
    if s.len() > 0 && hex_value(s[0]) is Some {
        let rest = s.skip(1);
        lemma_leading_hex(rest);
        assert forall|j: int| 0 <= j < leading_hex(s) implies is_digit(#[trigger] s[j]) by {
            if j > 0 {
                assert(rest[j - 1] == s[j]);
            }
        }
    }
}

/// Text stands for bytes if and only if it is, with small letters for capital ones, the text of these
/// bytes.
pub proof fn law_hex_reading(s: Seq<u8>, bytes: Seq<u8>)
    ensures
        hex_bytes(s) == Some(bytes) <==> {
            &&& s.len() == 2 * bytes.len()
            &&& forall|i: int|
                0 <= i < s.len() ==> hex_text(bytes)[i] as u8 == (if 65 <= #[trigger] s[i] <= 90 {
                    s[i] + 32
                } else {
                    s[i] as int
                })
        },
{
    lemma_leading_hex(s);
    if hex_bytes(s) == Some(bytes) {
        assert forall|i: int| 0 <= i < s.len() implies hex_text(bytes)[i] as u8 == (if 65
            <= #[trigger] s[i] <= 90 {
            s[i] + 32
        } else {
            s[i] as int
        }) by {
            let j = i / 2;
            let (x, y) = (s[2 * j], s[2 * j + 1]);
            assert(is_digit(x) && is_digit(y));
            assert(bytes[j] == (16 * hex_value(x).unwrap() + hex_value(y).unwrap()) as u8);
            assert(bytes[j] as nat / 16 == hex_value(x).unwrap());
            assert(bytes[j] as nat % 16 == hex_value(y).unwrap());
            lemma_sixteen(hex_value(x).unwrap());
            lemma_sixteen(hex_value(y).unwrap());
        }
    }
    if s.len() == 2 * bytes.len() && (forall|i: int|
        0 <= i < s.len() ==> hex_text(bytes)[i] as u8 == (if 65 <= #[trigger] s[i] <= 90 {
            s[i] + 32
        } else {
            s[i] as int
        })) {
        assert forall|i: int| 0 <= i < s.len() implies is_digit(#[trigger] s[i]) by {
            lemma_sixteen(bytes[i / 2] as nat / 16);
            lemma_sixteen(bytes[i / 2] as nat % 16);
        }
        assert(leading_hex(s) == s.len());
        let read = hex_bytes(s).unwrap();
        assert forall|j: int| 0 <= j < bytes.len() implies read[j] == bytes[j] by {
            let (x, y) = (s[2 * j], s[2 * j + 1]);
            lemma_sixteen(bytes[j] as nat / 16);
            lemma_sixteen(bytes[j] as nat % 16);
            assert(hex_text(bytes)[2 * j] == digit_char(bytes[j] as nat / 16));
            assert(hex_text(bytes)[2 * j + 1] == digit_char(bytes[j] as nat % 16));
            assert(hex_value(x) == Some(bytes[j] as nat / 16));
            assert(hex_value(y) == Some(bytes[j] as nat % 16));
        }
        assert(read =~= bytes);
    }
}

/// Text stands for no bytes if its length is odd, which is what is said then, or if some byte is no
/// digit: then the first such byte is told, with its position.
pub proof fn law_hex_error(s: Seq<u8>, position: int)
    ensures
        s.len() % 2 == 1 ==> hex_bytes(s) is None && hex_error(s) == "Odd number of digits"@,
        s.len() % 2 == 0 && (forall|j: int| 0 <= j < s.len() ==> is_digit(#[trigger] s[j]))
            ==> hex_bytes(s) is Some,
        s.len() % 2 == 0 && 0 <= position < s.len() && !is_digit(s[position]) && (forall|j: int|
            0 <= j < position ==> is_digit(#[trigger] s[j])) ==> {
            &&& hex_bytes(s) is None
            &&& 32 <= s[position] <= 126 && s[position] != 39 && s[position] != 92 ==> hex_error(s)
                == "Invalid character '"@ + seq![s[position] as char] + "' at position "@ + decimal(
                position as nat,
            )
            &&& !(32 <= s[position] <= 126 && s[position] != 39 && s[position] != 92) ==> hex_error(
                s,
            ) == hex_character_message(s[position], position as nat)
        },
{
    lemma_leading_hex(s);
    let first = leading_hex(s) as int;
    if first < s.len() && 0 <= position < s.len() && !is_digit(s[position]) && (forall|j: int|
        0 <= j < position ==> is_digit(#[trigger] s[j])) {
        if first < position {
            assert(is_digit(s[first]));
        } else if position < first {
            assert(is_digit(s[position]));
        }
    }
}

/// The decimal notation of a number has one digit for each power of ten that is not beyond it, and
/// each digit is the one of its place.
pub proof fn law_decimal(v: nat, i: int)
    requires
        0 <= i < decimal(v).len(),
    ensures
        v < pow(10, decimal(v).len()),
        decimal(v).len() > 1 ==> pow(10, (decimal(v).len() - 1) as nat) <= v,
        decimal(v)[i] == "0123456789"@[v as int / pow(10, (decimal(v).len() - 1 - i) as nat) % 10],
    decreases v,
{
    reveal_strlit("0123456789");
    reveal_with_fuel(pow, 3);
    lemma_pow0(10);
    if v >= 10 {
        let front = decimal(v / 10);
        let len = front.len();
        assert(decimal(v) == front.push(digit_char(v % 10)));
        lemma_decimal_len(v / 10);
        if i < len {
            law_decimal(v / 10, i);
            let p = pow(10, (len - 1 - i) as nat);
            lemma_pow_positive(10, (len - 1 - i) as nat);
            lemma_div_denominator(v as int, 10, p);
            assert(pow(10, (len - i) as nat) == 10 * p);
        } else {
            law_decimal(v / 10, 0);
            assert(v as int / 1 == v as int);
        }
        assert(pow(10, len + 1) == 10 * pow(10, len));
        assert(pow(10, len) == 10 * pow(10, (len - 1) as nat));
        if len == 1 {
            assert(pow(10, 1) == 10);
        }
    } else {
        assert(v as int / 1 == v as int);
    }
}

/// A number has at least one digit.
proof fn lemma_decimal_len(v: nat)
    ensures
        decimal(v).len() >= 1,
    decreases v,
{
}

/// What is shown of an error is its kind and its message.
pub proof fn law_error_text(msg: Seq<char>)
    ensures
        ErrorView::InvalidKey(msg).text() == "Invalid key: "@ + msg,
        ErrorView::InvalidAddress(msg).text() == "Invalid address: "@ + msg,
        ErrorView::CryptoError(msg).text() == "Cryptography error: "@ + msg,
        ErrorView::EncodingError(msg).text() == "Encoding error: "@ + msg,
{
}

/// The model of an error keeps its variant and its message.
pub proof fn law_error_view(msg: String)
    ensures
        (SilentPaymentError::InvalidKey { msg })@ == ErrorView::InvalidKey(msg@),
        (SilentPaymentError::InvalidAddress { msg })@ == ErrorView::InvalidAddress(msg@),
        (SilentPaymentError::CryptoError { msg })@ == ErrorView::CryptoError(msg@),
        (SilentPaymentError::EncodingError { msg })@ == ErrorView::EncodingError(msg@),
{
}

/// What the networks mean: the main network has the human-readable part `sp`, the regression test
/// network `sprt` and the others `tsp`; only the main network has main keys and the coin type 0.
pub proof fn law_networks(network: Network)
    ensures
        network == Network::Bitcoin ==> {
            &&& network.sp_network()@ == "sp"@
            &&& network.kind() == NetworkKind::Main
            &&& network.coin_type() == 0
        },
        network == Network::Regtest ==> network.sp_network()@ == "sprt"@,
        network != Network::Bitcoin && network != Network::Regtest ==> network.sp_network()@
            == "tsp"@,
        network != Network::Bitcoin ==> network.kind() == NetworkKind::Test && network.coin_type()
            == 1,
{
}

/// 32 bytes are read from text that stands for 32 bytes, and from no other.
pub proof fn law_bytes_reading(s: Seq<char>)
    ensures
        match hex_bytes(encode_utf8(s)) {
            Some(bytes) => bytes_32(s) == if bytes.len() == 32 {
                Ok::<_, ErrorView>(bytes)
            } else {
                Err(
                    ErrorView::EncodingError("Expected 32 bytes (64 hex chars), got: "@ + s),
                )
            },
            None => bytes_32(s) == Err::<Seq<u8>, _>(
                ErrorView::EncodingError(hex_error(encode_utf8(s))),
            ),
        },
{
}

/// A secret key is read from the text of its 32 bytes, and from no other text.
pub proof fn law_secret_reading(s: Seq<char>, prefix: Seq<char>, key: nat)
    ensures
        secret_from_hex(s, prefix) == Ok::<_, ErrorView>(key) <==> {
            &&& 0 < key < curve_order()
            &&& hex_bytes(encode_utf8(s)) == Some(be_bytes(key, 32))
        },
{
    if 0 < key < curve_order() {
        lemma_scalar_bytes(key);
    }
    if let Some(bytes) = hex_bytes(encode_utf8(s)) {
        lemma_be_bytes_of_nat(bytes);
        lemma_be_bytes_len(key, 32);
    }
}

/// What is said of text that holds no secret key: that it is no hexadecimal text, that it has another
/// length, or that the number is out of range.
pub proof fn law_secret_refusal(s: Seq<char>, prefix: Seq<char>)
    ensures
        match hex_bytes(encode_utf8(s)) {
            None => secret_from_hex(s, prefix) == Err::<nat, _>(
                ErrorView::EncodingError(hex_error(encode_utf8(s))),
            ),
            Some(bytes) => {
                &&& bytes.len() != 32 ==> secret_from_hex(s, prefix) == Err::<nat, _>(
                    ErrorView::EncodingError("Expected 32 bytes (64 hex chars), got: "@ + s),
                )
                &&& bytes.len() == 32 && (be_nat(bytes) == 0 || be_nat(bytes) >= curve_order())
                    ==> secret_from_hex(s, prefix) == Err::<nat, _>(
                    ErrorView::InvalidKey(prefix + "malformed or out-of-range secret key"@),
                )
            },
        },
{
}

/// A public key is read from the text of its point, and from no other text. What is said otherwise:
/// that it is no hexadecimal text, that it has another length, or that it is no point.
pub proof fn law_point_reading(s: Seq<char>, prefix: Seq<char>, point: Seq<u8>)
    ensures
        point_from_hex(s, prefix) == Ok::<_, ErrorView>(point) <==> is_point(point) && hex_bytes(
            encode_utf8(s),
        ) == Some(point),
        match hex_bytes(encode_utf8(s)) {
            None => point_from_hex(s, prefix) == Err::<Seq<u8>, _>(
                ErrorView::EncodingError(hex_error(encode_utf8(s))),
            ),
            Some(bytes) => {
                &&& bytes.len() != 33 ==> point_from_hex(s, prefix) == Err::<Seq<u8>, _>(
                    ErrorView::EncodingError("Expected 33 bytes (66 hex chars), got: "@ + s),
                )
                &&& bytes.len() == 33 && !is_point(bytes) ==> point_from_hex(s, prefix) == Err::<
                    Seq<u8>,
                    _,
                >(ErrorView::InvalidKey(prefix + "malformed public key"@))
            },
        },
{
}

/// The texts of the errors about keys.
pub proof fn law_key_error_texts()
    ensures
        secret_key_text() == "malformed or out-of-range secret key"@,
        public_key_text() == "malformed public key"@,
        tweak_text() == "bad tweak"@,
        key_sum_text()
            == "the sum of public keys was invalid or the input vector lengths was less than 1"@,
{
}

/// A recipient is restored from the texts of its secrets, and from no others; the scan secret is
/// looked at first.
pub proof fn law_recipient_reading(
    scan_hex: Seq<char>,
    spend_hex: Seq<char>,
    network: Network,
    recipient: RecipientView,
)
    ensures
        recipient_from_hex(scan_hex, spend_hex, network) == Ok::<_, ErrorView>(recipient) <==> {
            &&& 0 < recipient.scan < curve_order()
            &&& 0 < recipient.spend < curve_order()
            &&& hex_bytes(encode_utf8(scan_hex)) == Some(be_bytes(recipient.scan, 32))
            &&& hex_bytes(encode_utf8(spend_hex)) == Some(be_bytes(recipient.spend, 32))
            &&& recipient.network == network
        },
        secret_from_hex(scan_hex, "Invalid scan key: "@) matches Err(e) ==> recipient_from_hex(
            scan_hex,
            spend_hex,
            network,
        ) == Err::<RecipientView, _>(e),
        secret_from_hex(scan_hex, "Invalid scan key: "@) is Ok ==> (secret_from_hex(
            spend_hex,
            "Invalid spend key: "@,
        ) matches Err(e) ==> recipient_from_hex(scan_hex, spend_hex, network) == Err::<
            RecipientView,
            _,
        >(e)),
{
    law_secret_reading(scan_hex, "Invalid scan key: "@, recipient.scan);
    law_secret_reading(spend_hex, "Invalid spend key: "@, recipient.spend);
}

/// A scanner is made from the text of a scan secret and that of a spend public key, and from no
/// others; the scan secret is looked at first.
pub proof fn law_scanner_reading(scan_hex: Seq<char>, spend_hex: Seq<char>, scanner: ScannerView)
    ensures
        scanner_from_hex(scan_hex, spend_hex) == Ok::<_, ErrorView>(scanner) <==> {
            &&& 0 < scanner.scan < curve_order()
            &&& is_point(scanner.spend_public)
            &&& hex_bytes(encode_utf8(scan_hex)) == Some(be_bytes(scanner.scan, 32))
            &&& hex_bytes(encode_utf8(spend_hex)) == Some(scanner.spend_public)
        },
        secret_from_hex(scan_hex, "Invalid scan key: "@) matches Err(e) ==> scanner_from_hex(
            scan_hex,
            spend_hex,
        ) == Err::<ScannerView, _>(e),
        secret_from_hex(scan_hex, "Invalid scan key: "@) is Ok ==> (point_from_hex(
            spend_hex,
            "Invalid spend pubkey: "@,
        ) matches Err(e) ==> scanner_from_hex(scan_hex, spend_hex) == Err::<ScannerView, _>(e)),
{
    law_secret_reading(scan_hex, "Invalid scan key: "@, scanner.scan);
    law_point_reading(spend_hex, "Invalid spend pubkey: "@, scanner.spend_public);
}

/// A spendable output is restored from the text of its key and that of the point of the key, and from
/// no others; the key is looked at first, and that the two correspond last.
pub proof fn law_spendable_output_reading(key_hex: Seq<char>, point_hex: Seq<char>, key: nat)
    ensures
        corresponding_key(key_hex, point_hex) == Ok::<_, ErrorView>(key) <==> {
            &&& 0 < key < curve_order()
            &&& is_point(compressed_point(key))
            &&& hex_bytes(encode_utf8(key_hex)) == Some(be_bytes(key, 32))
            &&& hex_bytes(encode_utf8(point_hex)) == Some(compressed_point(key))
        },
        secret_from_hex(key_hex, "Invalid secp256k1 secret key: "@) matches Err(e)
            ==> corresponding_key(key_hex, point_hex) == Err::<nat, _>(e),
        secret_from_hex(key_hex, "Invalid secp256k1 secret key: "@) is Ok ==> (point_from_hex(
            point_hex,
            "Invalid compressed pubkey: "@,
        ) matches Err(e) ==> corresponding_key(key_hex, point_hex) == Err::<nat, _>(e)),
        0 < key < curve_order() && hex_bytes(encode_utf8(key_hex)) == Some(be_bytes(key, 32)) && (
        point_from_hex(point_hex, "Invalid compressed pubkey: "@) matches Ok(point) && point
            != compressed_point(key)) ==> corresponding_key(key_hex, point_hex) == Err::<nat, _>(
            ErrorView::InvalidKey("spending_key_hex does not correspond to output_pubkey_hex"@),
        ),
{
    law_secret_reading(key_hex, "Invalid secp256k1 secret key: "@, key);
    law_point_reading(point_hex, "Invalid compressed pubkey: "@, compressed_point(key));
    if let Ok(point) = point_from_hex(point_hex, "Invalid compressed pubkey: "@) {
        law_point_reading(point_hex, "Invalid compressed pubkey: "@, point);
    }
}

/// An address holds the text of its keys for the human-readable part of its network and the version
/// zero, the two keys as hexadecimal text, and the network.
pub proof fn law_address_parts(scan: Seq<u8>, spend: Seq<u8>, network: Network)
    ensures
        address_of(scan, spend, network).address == address_text(
            scan,
            spend,
            if network == Network::Bitcoin {
                "sp"@
            } else if network == Network::Regtest {
                "sprt"@
            } else {
                "tsp"@
            },
            0,
        ),
        address_of(scan, spend, network).scan_pubkey_hex == hex_text(scan),
        address_of(scan, spend, network).spend_pubkey_hex == hex_text(spend),
        address_of(scan, spend, network).network == network,
{
}

/// The keys of an address are those that it decodes to, if it is, with small letters for capital
/// ones, the text of what it decodes to.
pub proof fn law_address_reading(address: Seq<char>)
    ensures
        match address_parts(address) {
            Err(text) => address_keys(address) == Err::<(Seq<u8>, Seq<u8>), _>(
                ErrorView::InvalidAddress(text),
            ),
            Ok(parts) => {
                let canonical = encode_utf8(address_text(parts.0, parts.1, parts.2, 0));
                let utf8 = encode_utf8(address);
                let is_canonical = utf8.len() == canonical.len() && forall|i: int|
                    0 <= i < utf8.len() ==> canonical[i] == (if 65 <= #[trigger] utf8[i] <= 90 {
                        utf8[i] + 32
                    } else {
                        utf8[i] as int
                    });
                &&& is_canonical ==> address_keys(address) == Ok::<_, ErrorView>(
                    (parts.0, parts.1),
                )
                &&& !is_canonical ==> address_keys(address) == Err::<(Seq<u8>, Seq<u8>), _>(
                    ErrorView::InvalidAddress("Encoding must be bech32m"@),
                )
            },
        },
{
    if let Ok(parts) = address_parts(address) {
        let canonical = encode_utf8(address_text(parts.0, parts.1, parts.2, 0));
        let utf8 = encode_utf8(address);
        let lower = lower_case(utf8);
        if utf8.len() == canonical.len() && (forall|i: int|
            0 <= i < utf8.len() ==> canonical[i] == (if 65 <= #[trigger] utf8[i] <= 90 {
                utf8[i] + 32
            } else {
                utf8[i] as int
            })) {
            assert forall|i: int| 0 <= i < lower.len() implies lower[i] == canonical[i] by {
                assert(65 <= utf8[i] <= 90 || true);
            }
            assert(lower =~= canonical);
        }
        if lower == canonical {
            assert forall|i: int| 0 <= i < utf8.len() implies canonical[i] == (if 65
                <= #[trigger] utf8[i] <= 90 {
                utf8[i] + 32
            } else {
                utf8[i] as int
            }) by {
                assert(lower[i] == canonical[i]);
            }
        }
    }
}

} // verus!
