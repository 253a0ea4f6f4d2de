//! The computations of BIP-352 that senders, scanners and recipients share.

use crate::bytes::{be_bytes, be_nat, concat, u32_be_bytes};
use crate::curve::{
    add_mod, compressed_point, is_coordinates, is_point, is_secret, lemma_scalar_bytes, mul_mod,
    point_log, public_key_text, secret_key_text, shared_secret_point, tweak_text, PublicKey, Scalar,
    SecretKey,
};
use crate::error::{
    crypto_error, encoding_error, invalid_key, meets, ErrorView, SilentPaymentError,
};
use crate::hash::{compute_tagged_hash, tagged_hash};
use crate::laws::round_trip::law_point_round_trip;
use crate::text::{
    decimal, decimal_text, digit_char, hex_bytes, hex_decode, hex_encode, hex_error, hex_text, join, join3,
    same_text,
};
use vstd::prelude::*;
use vstd::utf8::encode_utf8;

verus! {

/// The number of the tweak of the output `k` under the shared point.
pub open spec fn output_tweak(shared: Seq<u8>, k: nat) -> nat {
    be_nat(tagged_hash("BIP0352/SharedSecret"@, shared + be_bytes(k, 4)))
}

/// The number of the label `m` of the recipient with the given scan secret.
pub open spec fn label_tweak(scan: nat, m: nat) -> nat {
    be_nat(tagged_hash("BIP0352/Label"@, be_bytes(scan, 32) + be_bytes(m, 4)))
}

/// The point that a secret and the point with the given logarithm share.
pub open spec fn shared_point(secret: nat, log: nat) -> Seq<u8> {
    compressed_point(mul_mod(log, secret))
}

/// The logarithm of the key of the output `k`: that of the spend key plus the tweak.
pub open spec fn output_log(spend: nat, shared: Seq<u8>, k: nat) -> nat {
    add_mod(spend, output_tweak(shared, k))
}

/// Why there is no output `k`, if there is none.
pub open spec fn output_error(spend: nat, shared: Seq<u8>, k: nat) -> Option<ErrorView> {
    if !is_secret(output_tweak(shared, k)) {
        Some(ErrorView::CryptoError(secret_key_text()))
    } else if output_log(spend, shared, k) == 0 {
        Some(ErrorView::CryptoError(tweak_text()))
    } else {
        None
    }
}

/// The text of the error for a label whose number is no secret key.
pub open spec fn label_error(m: nat) -> Seq<char> {
    "Label "@ + decimal(m) + " hash is an invalid scalar: "@ + secret_key_text()
}

/// Whether text is that of a compressed public key: 66 digits that begin with 02 or 03, and that are
/// read as a point.
pub open spec fn is_key_text(s: Seq<char>) -> bool {
    &&& s.len() == 66
    &&& point_from_hex(s, ""@) is Ok
    &&& "02"@.is_prefix_of(s) || "03"@.is_prefix_of(s)
}

/// The text of a point is that of a compressed public key.
pub proof fn lemma_key_text(point: Seq<u8>)
    requires
        is_point(point),
    ensures
        is_key_text(hex_text(point)),
        hex_text(point.skip(1)) == hex_text(point).skip(2),
{
    law_point_round_trip(point, ""@);
    reveal_strlit("02");
    reveal_strlit("03");
    let text = hex_text(point);
    assert(text[0] == digit_char(0) && text[1] == digit_char(point[0] as nat));
    assert(text.subrange(0, 2) =~= if point[0] == 2 {
        "02"@
    } else {
        "03"@
    });
    assert(hex_text(point.skip(1)) =~= text.skip(2));
}

/// The texts of a list of strings.
pub open spec fn texts(strings: Seq<String>) -> Seq<Seq<char>> {
    Seq::new(strings.len(), |i: int| strings[i]@)
}

/// Whether an output is listed by its full or by its x-only key.
pub open spec fn is_listed_as(output: Seq<char>, full: Seq<char>, xonly: Seq<char>) -> bool {
    output == full || output == xonly
}

/// Whether `i` is the first output that is listed by one of the two keys.
pub open spec fn is_first_match(
    outputs: Seq<Seq<char>>,
    full: Seq<char>,
    xonly: Seq<char>,
    i: int,
) -> bool {
    &&& 0 <= i < outputs.len()
    &&& is_listed_as(outputs[i], full, xonly)
    &&& forall|j: int| 0 <= j < i ==> !is_listed_as(#[trigger] outputs[j], full, xonly)
}

/// The index of the first output that is listed by one of the two keys.
pub open spec fn first_match(
    outputs: Seq<Seq<char>>,
    full: Seq<char>,
    xonly: Seq<char>,
) -> Option<u32> {
    if exists|i: int| is_first_match(outputs, full, xonly, i) {
        Some((choose|i: int| is_first_match(outputs, full, xonly, i)) as u32)
    } else {
        None
    }
}

/// The index of the first output that is listed by the point with the given logarithm.
pub open spec fn match_point(outputs: Seq<Seq<char>>, log: nat) -> Option<u32> {
    first_match(
        outputs,
        hex_text(compressed_point(log)),
        hex_text(compressed_point(log).skip(1)),
    )
}

/// There is at most one first match, and there is one if anything matches.
pub proof fn lemma_first_match(outputs: Seq<Seq<char>>, full: Seq<char>, xonly: Seq<char>, i: int)
    requires
        0 <= i < outputs.len(),
        is_listed_as(outputs[i], full, xonly),
    ensures
        exists|j: int|
            j <= i && is_first_match(outputs, full, xonly, j) && first_match(outputs, full, xonly)
                == Some(j as u32),
    decreases i,
{
    if exists|j: int| 0 <= j < i && is_listed_as(#[trigger] outputs[j], full, xonly) {
        let j = choose|j: int| 0 <= j < i && is_listed_as(#[trigger] outputs[j], full, xonly);
        lemma_first_match(outputs, full, xonly, j);
    } else {
        assert(is_first_match(outputs, full, xonly, i));
        let c = choose|c: int| is_first_match(outputs, full, xonly, c);
        assert(is_first_match(outputs, full, xonly, c));
        assert(c == i) by {
            if c < i {
                assert(is_listed_as(outputs[c], full, xonly));
            } else if i < c {
                assert(is_listed_as(outputs[i], full, xonly));
            }
        }
    }
}

/// The bytes of hexadecimal text that has to hold `len` of them.
pub open spec fn fixed_bytes(s: Seq<char>, len: nat, expected: Seq<char>) -> Result<
    Seq<u8>,
    ErrorView,
> {
    match hex_bytes(encode_utf8(s)) {
        None => Err(ErrorView::EncodingError(hex_error(encode_utf8(s)))),
        Some(bytes) => if bytes.len() == len {
            Ok(bytes)
        } else {
            Err(ErrorView::EncodingError(expected + s))
        },
    }
}

/// The 32 bytes of hexadecimal text.
pub open spec fn bytes_32(s: Seq<char>) -> Result<Seq<u8>, ErrorView> {
    fixed_bytes(s, 32, "Expected 32 bytes (64 hex chars), got: "@)
}

/// The 33 bytes of hexadecimal text.
pub open spec fn bytes_33(s: Seq<char>) -> Result<Seq<u8>, ErrorView> {
    fixed_bytes(s, 33, "Expected 33 bytes (66 hex chars), got: "@)
}

/// The number of the secret key in hexadecimal text; `prefix` opens the text of the error.
pub open spec fn secret_from_hex(s: Seq<char>, prefix: Seq<char>) -> Result<nat, ErrorView> {
    match bytes_32(s) {
        Err(e) => Err(e),
        Ok(bytes) => if is_secret(be_nat(bytes)) {
            Ok(be_nat(bytes))
        } else {
            Err(ErrorView::InvalidKey(prefix + secret_key_text()))
        },
    }
}

/// The compressed point in hexadecimal text; `prefix` opens the text of the error.
pub open spec fn point_from_hex(s: Seq<char>, prefix: Seq<char>) -> Result<Seq<u8>, ErrorView> {
    match bytes_33(s) {
        Err(e) => Err(e),
        Ok(bytes) => if is_point(bytes) {
            Ok(bytes)
        } else {
            Err(ErrorView::InvalidKey(prefix + public_key_text()))
        },
    }
}

/// Reads 32 bytes of hexadecimal text.
pub fn hex_to_32_bytes(s: &str) -> (r: Result<[u8; 32], SilentPaymentError>)
    ensures
        meets(r, bytes_32(s@)),
{
    let bytes: Vec<u8> = match hex_decode(s) {
        Ok(bytes) => bytes,
        Err(text) => return Err(encoding_error(text.as_str())),
    };
    if bytes.len() != 32 {
        return Err(
            encoding_error(join("Expected 32 bytes (64 hex chars), got: ", s).as_str()),
        );
    }
    let mut out: [u8; 32] = [0u8; 32];
    let mut i: usize = 0;
    while i < 32
        invariant
            i <= 32,
            bytes@.len() == 32,
            forall|j: int| 0 <= j < i ==> out@[j] == bytes@[j],
        decreases 32 - i,
    {
        out[i] = bytes[i];
        i = i + 1;
    }
    assert(out@ =~= bytes@);
    Ok(out)
}

/// Reads 33 bytes of hexadecimal text.
pub fn hex_to_33_bytes(s: &str) -> (r: Result<[u8; 33], SilentPaymentError>)
    ensures
        meets(r, bytes_33(s@)),
{
    let bytes: Vec<u8> = match hex_decode(s) {
        Ok(bytes) => bytes,
        Err(text) => return Err(encoding_error(text.as_str())),
    };
    if bytes.len() != 33 {
        return Err(
            encoding_error(join("Expected 33 bytes (66 hex chars), got: ", s).as_str()),
        );
    }
    let mut out: [u8; 33] = [0u8; 33];
    let mut i: usize = 0;
    while i < 33
        invariant
            i <= 33,
            bytes@.len() == 33,
            forall|j: int| 0 <= j < i ==> out@[j] == bytes@[j],
        decreases 33 - i,
    {
        out[i] = bytes[i];
        i = i + 1;
    }
    assert(out@ =~= bytes@);
    Ok(out)
}

/// Reads a secret key from hexadecimal text; `prefix` opens the text of the error.
pub fn parse_secret_key(s: &str, prefix: &str) -> (r: Result<SecretKey, SilentPaymentError>)
    ensures
        meets(r, secret_from_hex(s@, prefix@)),
{
    let bytes: [u8; 32] = match hex_to_32_bytes(s) {
        Ok(bytes) => bytes,
        Err(e) => return Err(e),
    };
    match SecretKey::from_slice(bytes.as_slice()) {
        Ok(key) => Ok(key),
        Err(text) => Err(invalid_key(join(prefix, text.as_str()).as_str())),
    }
}

/// Reads a secret key from hexadecimal text.
pub fn parse_secret_key_hex(s: &str) -> (r: Result<SecretKey, SilentPaymentError>)
    ensures
        meets(r, secret_from_hex(s@, "Invalid secp256k1 secret key: "@)),
{
    parse_secret_key(s, "Invalid secp256k1 secret key: ")
}

/// Reads a public key from hexadecimal text; `prefix` opens the text of the error.
pub fn parse_public_key(s: &str, prefix: &str) -> (r: Result<PublicKey, SilentPaymentError>)
    ensures
        meets(r, point_from_hex(s@, prefix@)),
{
    let bytes: [u8; 33] = match hex_to_33_bytes(s) {
        Ok(bytes) => bytes,
        Err(e) => return Err(e),
    };
    match PublicKey::from_slice(bytes.as_slice()) {
        Ok(key) => Ok(key),
        Err(text) => Err(invalid_key(join(prefix, text.as_str()).as_str())),
    }
}

/// Reads a compressed public key from hexadecimal text.
pub fn parse_pubkey_33(hex_str: &str) -> (r: Result<PublicKey, SilentPaymentError>)
    ensures
        meets(r, point_from_hex(hex_str@, "Invalid compressed pubkey: "@)),
{
    parse_public_key(hex_str, "Invalid compressed pubkey: ")
}

/// The tweak of the output `k`: the tagged hash of the shared point and `k`.
pub fn compute_t_n(ecdh_pubkey: &PublicKey, k: u32) -> (r: Result<SecretKey, SilentPaymentError>)
    ensures
        match r {
            Ok(key) => key@ == output_tweak(ecdh_pubkey@, k as nat),
            Err(e) => !is_secret(output_tweak(ecdh_pubkey@, k as nat)) && e@
                == ErrorView::CryptoError(secret_key_text()),
        },
        r is Ok <==> is_secret(output_tweak(ecdh_pubkey@, k as nat)),
{
    let message: Vec<u8> = concat(
        ecdh_pubkey.serialize().as_slice(),
        u32_be_bytes(k).as_slice(),
    );
    let hash: [u8; 32] = compute_tagged_hash("BIP0352/SharedSecret", message.as_slice());
    match SecretKey::from_slice(hash.as_slice()) {
        Ok(key) => Ok(key),
        Err(text) => Err(crypto_error(text.as_str())),
    }
}

/// The public key of an output: the spend key plus the generator times the tweak.
pub fn compute_p_n(spend_public: &PublicKey, t_k: &SecretKey) -> (r: Result<
    PublicKey,
    SilentPaymentError,
>)
    ensures
        match r {
            Ok(key) => key@ == compressed_point(add_mod(point_log(spend_public@), t_k@)),
            Err(e) => e@ == ErrorView::CryptoError(tweak_text()),
        },
        r is Ok <==> add_mod(point_log(spend_public@), t_k@) != 0,
{
    proof {
        use_type_invariant(*t_k);
        lemma_scalar_bytes(t_k@);
    }
    let scalar: Scalar = match Scalar::from_be_bytes(t_k.secret_bytes()) {
        Some(scalar) => scalar,
        None => return Err(crypto_error("t_k produced out-of-range scalar")),
    };
    match spend_public.add_exp_tweak(&scalar) {
        Ok(key) => Ok(key),
        Err(text) => Err(crypto_error(text.as_str())),
    }
}

/// The number of the label `m`, as a secret key.
fn label_secret(b_scan: &SecretKey, m: u32) -> (r: Result<SecretKey, SilentPaymentError>)
    ensures
        match r {
            Ok(key) => key@ == label_tweak(b_scan@, m as nat),
            Err(e) => e@ == ErrorView::CryptoError(label_error(m as nat)),
        },
        r is Ok <==> is_secret(label_tweak(b_scan@, m as nat)),
{
    let message: Vec<u8> = concat(b_scan.secret_bytes().as_slice(), u32_be_bytes(m).as_slice());
    let hash: [u8; 32] = compute_tagged_hash("BIP0352/Label", message.as_slice());
    match SecretKey::from_slice(hash.as_slice()) {
        Ok(key) => Ok(key),
        Err(text) => {
            let head: String = join3(
                "Label ",
                decimal_text(m).as_str(),
                " hash is an invalid scalar: ",
            );
            Err(crypto_error(join(head.as_str(), text.as_str()).as_str()))
        },
    }
}

/// The point of the label `m`: the generator times the number of the label.
pub fn compute_label_pubkey(b_scan: &SecretKey, m: u32) -> (r: Result<
    PublicKey,
    SilentPaymentError,
>)
    ensures
        match r {
            Ok(key) => key@ == compressed_point(label_tweak(b_scan@, m as nat)),
            Err(e) => e@ == ErrorView::CryptoError(label_error(m as nat)),
        },
        r is Ok <==> is_secret(label_tweak(b_scan@, m as nat)),
{
    match label_secret(b_scan, m) {
        Ok(label) => Ok(PublicKey::from_secret_key(&label)),
        Err(e) => Err(e),
    }
}

/// The number of the label `m`, for adding to a secret key.
pub fn compute_label_scalar(b_scan: &SecretKey, m: u32) -> (r: Result<Scalar, SilentPaymentError>)
    ensures
        match r {
            Ok(scalar) => scalar@ == label_tweak(b_scan@, m as nat),
            Err(e) => e@ == ErrorView::CryptoError(label_error(m as nat)),
        },
        r is Ok <==> is_secret(label_tweak(b_scan@, m as nat)),
{
    let label: SecretKey = match label_secret(b_scan, m) {
        Ok(label) => label,
        Err(e) => return Err(e),
    };
    proof {
        use_type_invariant(label);
        lemma_scalar_bytes(label@);
    }
    match Scalar::from_be_bytes(label.secret_bytes()) {
        Some(scalar) => Ok(scalar),
        None => Err(
            crypto_error(
                join3("Label ", decimal_text(m).as_str(), " hash out of scalar range").as_str(),
            ),
        ),
    }
}

/// Reads the point with the given coordinates.
pub fn uncompressed_to_pubkey(raw_ecdh: &[u8; 64]) -> (r: Result<PublicKey, SilentPaymentError>)
    ensures
        r is Ok <==> exists|k: nat| is_coordinates(raw_ecdh@, k),
        match r {
            Ok(key) => forall|k: nat| #[trigger]
                is_coordinates(raw_ecdh@, k) ==> key@ == compressed_point(k),
            Err(e) => e@ == ErrorView::CryptoError(
                "Failed to reconstruct ECDH point: "@ + public_key_text(),
            ),
        },
{
    let prefix: [u8; 1] = [4u8];
    let uncompressed: Vec<u8> = concat(prefix.as_slice(), raw_ecdh.as_slice());
    assert(uncompressed@.skip(1) =~= raw_ecdh@);
    match PublicKey::from_slice(uncompressed.as_slice()) {
        Ok(key) => Ok(key),
        Err(text) => Err(
            crypto_error(join("Failed to reconstruct ECDH point: ", text.as_str()).as_str()),
        ),
    }
}

/// The point that a public and a secret key share: the point times the secret.
pub fn ecdh_point(pubkey: &PublicKey, scalar: &SecretKey) -> (r: Result<
    PublicKey,
    SilentPaymentError,
>)
    ensures
        r matches Ok(key) && key@ == shared_point(scalar@, point_log(pubkey@)),
{
    let raw_ecdh: [u8; 64] = shared_secret_point(pubkey, scalar);
    uncompressed_to_pubkey(&raw_ecdh)
}

/// The two ways in which a transaction output lists a key: with the prefix byte and without.
pub fn pubkey_to_hex_pair(pk: &PublicKey) -> (r: (String, String))
    ensures
        r.0@ == hex_text(pk@),
        r.1@ == hex_text(pk@.skip(1)),
        is_key_text(r.0@),
        r.1@ == r.0@.skip(2),
        r.1@.len() == 64,
{
    proof {
        use_type_invariant(*pk);
        lemma_key_text(pk@);
    }
    let bytes: [u8; 33] = pk.serialize();
    let full: String = hex_encode(bytes.as_slice());
    let tail: &[u8] = vstd::slice::slice_subrange(bytes.as_slice(), 1, 33);
    assert(tail@ =~= pk@.skip(1));
    (full, hex_encode(tail))
}

/// The index of the first output that is listed by one of the two keys.
pub fn match_output(outputs: &[String], full: &str, xonly: &str) -> (r: Option<u32>)
    ensures
        r == first_match(texts(outputs@), full@, xonly@),
        r matches Some(i) ==> outputs@.len() <= 0x1_0000_0000 ==> i < outputs@.len()
            && is_listed_as(outputs@[i as int]@, full@, xonly@),
{
    let ghost all = texts(outputs@);
    let mut i: usize = 0;
    while i < outputs.len()
        invariant
            i <= outputs@.len(),
            all == texts(outputs@),
            forall|j: int| 0 <= j < i ==> !is_listed_as(#[trigger] all[j], full@, xonly@),
        decreases outputs@.len() - i,
    {
        let output: &str = outputs[i].as_str();
        if same_text(output, full) || same_text(output, xonly) {
            proof {
                lemma_first_match(all, full@, xonly@, i as int);
            }
            assert(outputs@.len() <= 0x1_0000_0000 ==> i as u32 == i);
            return Some(i as u32);
        }
        i = i + 1;
    }
    None
}

} // verus!
