//! Outputs together with the keys that spend them.

use crate::bip352::{
    is_key_text, lemma_key_text, parse_pubkey_33, parse_secret_key_hex, point_from_hex,
    secret_from_hex,
};
use crate::bytes::{be_bytes, same_bytes};
use crate::curve::{compressed_point, is_point, is_secret, PublicKey, SecretKey};
use crate::error::{invalid_key, meets, ErrorView, SilentPaymentError};
use crate::text::{hex_encode, hex_text};
use vstd::prelude::*;

verus! {

/// A discovered output with the key that spends it.
///
/// The output key always is the generator times the spending key.
pub struct SpendableOutput {
    spending_key: SecretKey,
    output_pubkey: PublicKey,
}

impl View for SpendableOutput {
    type V = nat;

    /// The number of the spending key, which determines the output key.
    closed spec fn view(&self) -> nat {
        self.spending_key@
    }
}

/// The spending key in `spending_key_hex`, if it is the one of the key in `output_pubkey_hex`.
pub open spec fn corresponding_key(
    spending_key_hex: Seq<char>,
    output_pubkey_hex: Seq<char>,
) -> Result<nat, ErrorView> {
    match secret_from_hex(spending_key_hex, "Invalid secp256k1 secret key: "@) {
        Err(e) => Err(e),
        Ok(key) => match point_from_hex(output_pubkey_hex, "Invalid compressed pubkey: "@) {
            Err(e) => Err(e),
            Ok(point) => if compressed_point(key) == point {
                Ok(key)
            } else {
                Err(
                    ErrorView::InvalidKey(
                        "spending_key_hex does not correspond to output_pubkey_hex"@,
                    ),
                )
            },
        },
    }
}

impl SpendableOutput {
    #[verifier::type_invariant]
    spec fn corresponds(self) -> bool {
        self.output_pubkey@ == compressed_point(self.spending_key@)
    }

    /// The output that a spending key spends.
    pub(crate) fn from_key(spending_key: SecretKey) -> (r: SpendableOutput)
        ensures
            r@ == spending_key@,
    {
        let output_pubkey: PublicKey = PublicKey::from_secret_key(&spending_key);
        SpendableOutput { spending_key, output_pubkey }
    }

    /// Restores an output from stored text, and checks that the two keys correspond.
    pub fn from_hex(spending_key_hex: String, output_pubkey_hex: String) -> (r: Result<
        SpendableOutput,
        SilentPaymentError,
    >)
        ensures
            meets(r, corresponding_key(spending_key_hex@, output_pubkey_hex@)),
    {
        let spending_key: SecretKey = match parse_secret_key_hex(spending_key_hex.as_str()) {
            Ok(key) => key,
            Err(e) => return Err(e),
        };
        let output_pubkey: PublicKey = match parse_pubkey_33(output_pubkey_hex.as_str()) {
            Ok(key) => key,
            Err(e) => return Err(e),
        };
        let derived_pubkey: PublicKey = PublicKey::from_secret_key(&spending_key);
        if !same_bytes(
            derived_pubkey.serialize().as_slice(),
            output_pubkey.serialize().as_slice(),
        ) {
            return Err(
                invalid_key("spending_key_hex does not correspond to output_pubkey_hex"),
            );
        }
        Ok(SpendableOutput { spending_key, output_pubkey })
    }

    /// The spending key.
    pub fn spending_key(&self) -> (r: SecretKey)
        ensures
            r@ == self@,
            is_secret(self@),
    {
        proof {
            use_type_invariant(self.spending_key);
        }
        self.spending_key
    }

    /// The output key.
    pub fn output_pubkey(&self) -> (r: PublicKey)
        ensures
            r@ == compressed_point(self@),
            is_point(r@),
    {
        proof {
            use_type_invariant(self);
            use_type_invariant(self.output_pubkey);
        }
        self.output_pubkey
    }

    /// The spending key as 64 hexadecimal digits.
    pub fn spending_key_hex(&self) -> (r: String)
        ensures
            r@ == hex_text(be_bytes(self@, 32)),
            r@.len() == 64,
    {
        hex_encode(self.spending_key.secret_bytes().as_slice())
    }

    /// The output key as 66 hexadecimal digits.
    pub fn output_pubkey_hex(&self) -> (r: String)
        ensures
            r@ == hex_text(compressed_point(self@)),
            is_key_text(r@),
    {
        proof {
            use_type_invariant(self);
            use_type_invariant(self.output_pubkey);
            lemma_key_text(compressed_point(self@));
        }
        hex_encode(self.output_pubkey.serialize().as_slice())
    }
}

} // verus!
