//! Keys on the curve secp256k1.
//!
//! A secret key is a number below the curve order. A public key is the generator times such a
//! number: the order is prime, so every point but the neutral one is a multiple of the generator
//! in exactly one way. The contracts speak of that multiple, the logarithm of the point.

use crate::bytes::{
    be_bytes, be_nat, lemma_be_bytes_len, lemma_be_bytes_of_nat, lemma_be_nat_of_bytes,
};
use vstd::arithmetic::power::pow;
use vstd::prelude::*;

verus! {

/// The order of the curve.
pub open spec fn curve_order() -> nat {
    0xFFFF_FFFF_FFFF_FFFF_FFFF_FFFF_FFFF_FFFE_BAAE_DCE6_AF48_A03B_BFD2_5E8C_D036_4141nat
}

/// The numbers that are secret keys.
pub open spec fn is_secret(k: nat) -> bool {
    0 < k < curve_order()
}

/// The 33 bytes of the compressed form of the generator times `k`.
pub uninterp spec fn compressed_point(k: nat) -> Seq<u8>;

/// The 64 bytes of the two coordinates of the generator times `k`.
pub uninterp spec fn point_coordinates(k: nat) -> Seq<u8>;

/// Whether `point` is the compressed form of the generator times `k`.
pub open spec fn is_log(point: Seq<u8>, k: nat) -> bool {
    is_secret(k) && compressed_point(k) == point
}

/// Whether `point` is the compressed form of a point: 33 bytes, of which the first is 2 or 3, and a
/// multiple of the generator in one way.
pub open spec fn is_point(point: Seq<u8>) -> bool {
    &&& point.len() == 33
    &&& point[0] == 2 || point[0] == 3
    &&& exists|k: nat| #[trigger]
        is_log(point, k) && forall|j: nat| #[trigger] is_log(point, j) ==> j == k
}

/// The number that, times the generator, gives `point`.
pub open spec fn point_log(point: Seq<u8>) -> nat {
    choose|k: nat| is_log(point, k)
}

/// Whether `xy` holds the coordinates of the generator times `k`.
pub open spec fn is_coordinates(xy: Seq<u8>, k: nat) -> bool {
    is_secret(k) && point_coordinates(k) == xy
}

/// The logarithm of a point is the only one that it has.
pub proof fn lemma_point_log(point: Seq<u8>)
    requires
        is_point(point),
    ensures
        is_log(point, point_log(point)),
        forall|j: nat| #[trigger] is_log(point, j) ==> j == point_log(point),
{
}

/// The logarithm of the generator times a number is that number.
pub proof fn lemma_log_of_point(k: nat)
    requires
        is_secret(k),
        is_point(compressed_point(k)),
    ensures
        point_log(compressed_point(k)) == k,
{
    assert(is_log(compressed_point(k), k));
}

/// A number below the curve order is what its 32 bytes stand for.
pub proof fn lemma_scalar_bytes(k: nat)
    requires
        k < curve_order(),
    ensures
        be_bytes(k, 32).len() == 32,
        be_nat(be_bytes(k, 32)) == k,
{
    lemma_be_bytes_len(k, 32);
    assert(curve_order() < pow(256, 32)) by {
        reveal_with_fuel(pow, 33);
    }
    lemma_be_nat_of_bytes(k, 32);
}

/// The sum of two numbers modulo the curve order.
pub open spec fn add_mod(a: nat, b: nat) -> nat {
    (a + b) % curve_order()
}

/// The product of two numbers modulo the curve order.
pub open spec fn mul_mod(a: nat, b: nat) -> nat {
    (a * b) % curve_order()
}

/// The text of the error for bytes that are no secret key.
pub open spec fn secret_key_text() -> Seq<char> {
    "malformed or out-of-range secret key"@
}

/// The text of the error for bytes that are no public key.
pub open spec fn public_key_text() -> Seq<char> {
    "malformed public key"@
}

/// The text of the error for a sum or a product of zero.
pub open spec fn tweak_text() -> Seq<char> {
    "bad tweak"@
}

/// The text of the error for public keys whose sum is the neutral point.
pub open spec fn key_sum_text() -> Seq<char> {
    "the sum of public keys was invalid or the input vector lengths was less than 1"@
}

/// A secret key: 32 bytes of a number that is neither zero nor beyond the curve order.
#[derive(Clone, Copy)]
pub struct SecretKey {
    pub(crate) bytes: [u8; 32],
}

impl View for SecretKey {
    type V = nat;

    closed spec fn view(&self) -> nat {
        be_nat(self.bytes@)
    }
}

/// A number below the curve order.
#[derive(Clone, Copy)]
pub struct Scalar {
    pub(crate) bytes: [u8; 32],
}

impl View for Scalar {
    type V = nat;

    closed spec fn view(&self) -> nat {
        be_nat(self.bytes@)
    }
}

/// A public key: the 33 bytes of the compressed form of a point.
#[derive(Clone, Copy)]
pub struct PublicKey {
    pub(crate) bytes: [u8; 33],
}

impl View for PublicKey {
    type V = Seq<u8>;

    closed spec fn view(&self) -> Seq<u8> {
        self.bytes@
    }
}

impl SecretKey {
    #[verifier::type_invariant]
    pub open spec fn wf(self) -> bool {
        is_secret(self@)
    }

    /// Calls `secp256k1::SecretKey::from_slice`.
    ///
    /// It accepts 32 bytes of a number that is neither zero nor beyond the curve order, and keeps
    /// them; the one error is handed out as the text that it displays.
    #[verifier::external_body]
    pub(crate) fn from_slice(data: &[u8]) -> (r: Result<SecretKey, String>)
        ensures
            match r {
                Ok(key) => data@.len() == 32 && is_secret(be_nat(data@)) && key@ == be_nat(data@),
                Err(text) => !(data@.len() == 32 && is_secret(be_nat(data@))) && text@
                    == secret_key_text(),
            },
    {
        secp256k1::SecretKey::from_slice(data).map(|key| SecretKey { bytes: key.secret_bytes() })
            .map_err(|e| e.to_string())
    }

    /// Calls `secp256k1::SecretKey::new` with the generator of the thread.
    ///
    /// The key is random: all that is known of it is that it is a secret key.
    #[verifier::external_body]
    pub(crate) fn random() -> (r: SecretKey)
        ensures
            is_secret(r@),
    {
        let key = secp256k1::SecretKey::new(&mut secp256k1::rand::thread_rng());
        SecretKey { bytes: key.secret_bytes() }
    }

    /// The 32 bytes of the key.
    pub fn secret_bytes(&self) -> (r: [u8; 32])
        ensures
            r@ == be_bytes(self@, 32),
    {
        proof {
            lemma_be_bytes_of_nat(self.bytes@);
        }
        self.bytes
    }

    /// Calls `secp256k1::SecretKey::negate`: the additive inverse modulo the curve order.
    #[verifier::external_body]
    pub(crate) fn negate(&self) -> (r: SecretKey)
        ensures
            r@ == curve_order() - self@,
    {
        let key = secp256k1::SecretKey::from_slice(&self.bytes).unwrap().negate();
        SecretKey { bytes: key.secret_bytes() }
    }

    /// Calls `secp256k1::SecretKey::add_tweak`.
    ///
    /// The sum is taken modulo the curve order, and refused when it is zero; the one error is
    /// handed out as the text that it displays.
    #[verifier::external_body]
    pub(crate) fn add_tweak(&self, tweak: &Scalar) -> (r: Result<SecretKey, String>)
        ensures
            match r {
                Ok(key) => is_secret(key@) && key@ == add_mod(self@, tweak@),
                Err(text) => add_mod(self@, tweak@) == 0 && text@ == tweak_text(),
            },
    {
        let scalar = secp256k1::Scalar::from_be_bytes(tweak.bytes).unwrap();
        let key = secp256k1::SecretKey::from_slice(&self.bytes).unwrap();
        key.add_tweak(&scalar).map(|key| SecretKey { bytes: key.secret_bytes() }).map_err(
            |e| e.to_string(),
        )
    }

    /// The key as a number.
    pub(crate) fn to_scalar(&self) -> (r: Scalar)
        ensures
            r@ == self@,
    {
        proof {
            use_type_invariant(*self);
        }
        Scalar { bytes: self.bytes }
    }
}

impl Scalar {
    #[verifier::type_invariant]
    pub open spec fn wf(self) -> bool {
        self@ < curve_order()
    }

    /// Calls `secp256k1::Scalar::from_be_bytes`, which accepts the numbers below the curve order.
    #[verifier::external_body]
    pub(crate) fn from_be_bytes(value: [u8; 32]) -> (r: Option<Scalar>)
        ensures
            match r {
                Some(scalar) => be_nat(value@) < curve_order() && scalar@ == be_nat(value@),
                None => be_nat(value@) >= curve_order(),
            },
    {
        secp256k1::Scalar::from_be_bytes(value).ok().map(|s| Scalar { bytes: s.to_be_bytes() })
    }
}

impl PublicKey {
    #[verifier::type_invariant]
    pub open spec fn wf(self) -> bool {
        is_point(self@)
    }

    /// Calls `secp256k1::PublicKey::from_secret_key`: the generator times the secret key.
    #[verifier::external_body]
    pub(crate) fn from_secret_key(key: &SecretKey) -> (r: PublicKey)
        ensures
            r@ == compressed_point(key@),
            is_point(r@),
    {
        let key = secp256k1::SecretKey::from_slice(&key.bytes).unwrap();
        let secp = secp256k1::Secp256k1::new();
        PublicKey { bytes: secp256k1::PublicKey::from_secret_key(&secp, &key).serialize() }
    }

    /// Calls `secp256k1::PublicKey::from_slice`.
    ///
    /// 33 bytes are read as a compressed point, and kept. 65 bytes that begin with 4 are read as
    /// the coordinates of a point. The one error is handed out as the text that it displays.
    /// Nothing is said of 65 bytes that begin otherwise.
    #[verifier::external_body]
    pub(crate) fn from_slice(data: &[u8]) -> (r: Result<PublicKey, String>)
        ensures
            match r {
                Ok(key) => {
                    &&& is_point(key@)
                    &&& data@.len() == 33 || data@.len() == 65
                    &&& data@.len() == 33 ==> is_point(data@) && key@ == data@
                    &&& data@.len() == 65 && data@[0] == 4 ==> exists|k: nat| #[trigger]
                        is_coordinates(data@.skip(1), k) && key@ == compressed_point(k)
                    &&& data@.len() == 65 && data@[0] == 4 ==> forall|k: nat| #[trigger]
                        is_coordinates(data@.skip(1), k) ==> key@ == compressed_point(k)
                },
                Err(text) => {
                    &&& text@ == public_key_text()
                    &&& data@.len() == 33 ==> !is_point(data@)
                    &&& data@.len() == 65 && data@[0] == 4 ==> forall|k: nat| !#[trigger]
                        is_coordinates(data@.skip(1), k)
                },
            },
    {
        secp256k1::PublicKey::from_slice(data).map(|key| PublicKey { bytes: key.serialize() })
            .map_err(|e| e.to_string())
    }

    /// The 33 bytes of the compressed form.
    pub fn serialize(&self) -> (r: [u8; 33])
        ensures
            r@ == self@,
    {
        self.bytes
    }

    /// Calls `secp256k1::PublicKey::add_exp_tweak`: the point plus the generator times `tweak`.
    ///
    /// The sum is refused when it is the neutral point; the one error is handed out as the text
    /// that it displays.
    #[verifier::external_body]
    pub(crate) fn add_exp_tweak(&self, tweak: &Scalar) -> (r: Result<PublicKey, String>)
        ensures
            match r {
                Ok(key) => add_mod(point_log(self@), tweak@) != 0 && is_point(key@) && key@
                    == compressed_point(add_mod(point_log(self@), tweak@)),
                Err(text) => add_mod(point_log(self@), tweak@) == 0 && text@ == tweak_text(),
            },
    {
        let key = secp256k1::PublicKey::from_slice(&self.bytes).unwrap();
        let scalar = secp256k1::Scalar::from_be_bytes(tweak.bytes).unwrap();
        let secp = secp256k1::Secp256k1::verification_only();
        key.add_exp_tweak(&secp, &scalar).map(|key| PublicKey { bytes: key.serialize() }).map_err(
            |e| e.to_string(),
        )
    }

    /// Calls `secp256k1::PublicKey::combine_keys` on two keys: the sum of the points.
    ///
    /// The sum is refused when it is the neutral point; the one error is handed out as the text
    /// that it displays.
    #[verifier::external_body]
    pub(crate) fn combine(&self, other: &PublicKey) -> (r: Result<PublicKey, String>)
        ensures
            match r {
                Ok(key) => add_mod(point_log(self@), point_log(other@)) != 0 && is_point(key@)
                    && key@ == compressed_point(add_mod(point_log(self@), point_log(other@))),
                Err(text) => add_mod(point_log(self@), point_log(other@)) == 0 && text@
                    == key_sum_text(),
            },
    {
        let a = secp256k1::PublicKey::from_slice(&self.bytes).unwrap();
        let b = secp256k1::PublicKey::from_slice(&other.bytes).unwrap();
        secp256k1::PublicKey::combine_keys(&[&a, &b]).map(
            |key| PublicKey { bytes: key.serialize() },
        ).map_err(|e| e.to_string())
    }
}

/// Calls `secp256k1::ecdh::shared_secret_point`: the coordinates of the point times the secret key.
///
/// The curve order is prime, so the product is never the neutral point.
#[verifier::external_body]
pub(crate) fn shared_secret_point(point: &PublicKey, scalar: &SecretKey) -> (r: [u8; 64])
    ensures
        r@ == point_coordinates(mul_mod(point_log(point@), scalar@)),
        is_coordinates(r@, mul_mod(point_log(point@), scalar@)),
{
    let point = secp256k1::PublicKey::from_slice(&point.bytes).unwrap();
    let scalar = secp256k1::SecretKey::from_slice(&scalar.bytes).unwrap();
    secp256k1::ecdh::shared_secret_point(&point, &scalar)
}

} // verus!
