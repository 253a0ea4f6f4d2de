//! The hash functions, and the tagged hash of BIP-340.

use crate::bytes::concat;
use bitcoin_hashes::HashEngine;
use vstd::prelude::*;
use vstd::utf8::encode_utf8;

verus! {

/// The SHA-256 digest of a message.
pub uninterp spec fn sha256(message: Seq<u8>) -> Seq<u8>;

/// The HMAC-SHA-512 code of a message under a key.
pub uninterp spec fn hmac_sha512(key: Seq<u8>, message: Seq<u8>) -> Seq<u8>;

/// The tagged hash of BIP-340: the digest of the tag's digest, twice, then the message.
pub open spec fn tagged_hash(tag: Seq<char>, message: Seq<u8>) -> Seq<u8> {
    let prefix = sha256(encode_utf8(tag));
    sha256(prefix + prefix + message)
}

/// Calls `bitcoin_hashes::sha256::Hash::hash`: the digest is a function of the message.
#[verifier::external_body]
fn sha256_digest(message: &[u8]) -> (r: [u8; 32])
    ensures
        r@ == sha256(message@),
{
    let digest = <bitcoin_hashes::sha256::Hash as bitcoin_hashes::Hash>::hash(message);
    bitcoin_hashes::Hash::to_byte_array(digest)
}

/// Calls `bitcoin_hashes::Hmac::from_engine` over SHA-512: the code is a function of key and message.
#[verifier::external_body]
pub(crate) fn hmac_sha512_code(key: &[u8], message: &[u8]) -> (r: [u8; 64])
    ensures
        r@ == hmac_sha512(key@, message@),
{
    let mut engine = bitcoin_hashes::HmacEngine::<bitcoin_hashes::sha512::Hash>::new(key);
    engine.input(message);
    let code: bitcoin_hashes::Hmac<bitcoin_hashes::sha512::Hash> = bitcoin_hashes::Hash::from_engine(
        engine,
    );
    bitcoin_hashes::Hash::to_byte_array(code)
}

/// The tagged hash of a message.
pub fn compute_tagged_hash(tag: &str, message: &[u8]) -> (r: [u8; 32])
    ensures
        r@ == tagged_hash(tag@, message@),
{
    let prefix: [u8; 32] = sha256_digest(tag.as_bytes());
    let twice: Vec<u8> = concat(prefix.as_slice(), prefix.as_slice());
    let whole: Vec<u8> = concat(twice.as_slice(), message);
    sha256_digest(whole.as_slice())
}

} // verus!
