//! Sending: the outputs of a silent payment transaction, and its tweak data.

use crate::address::{address_keys, parse_sp_address};
use crate::bip352::{
    compute_p_n, compute_t_n, ecdh_point, is_key_text, lemma_key_text, output_error, output_log,
    parse_secret_key, secret_from_hex, shared_point,
};
use crate::bytes::{be_bytes, be_nat, concat, is_less, lemma_be_nat_injective, same_bytes};
use crate::curve::{
    add_mod, compressed_point, curve_order, is_point, lemma_scalar_bytes, mul_mod, point_log,
    tweak_text, PublicKey, Scalar, SecretKey,
};
use crate::error::{
    crypto_error, encoding_error, invalid_address, invalid_key, meets, ErrorView,
    SilentPaymentError,
};
use crate::hash::{compute_tagged_hash, tagged_hash};
use crate::payment::{
    addresses, input_views, output_views, InputView, OutputView, OutputWithKey, PaymentRecipient,
    SendingInput,
};
use crate::text::{
    decimal, decimal_text, hex_bytes, hex_encode, hex_error, hex_text, join, join3,
};
use vstd::prelude::*;
use vstd::utf8::encode_utf8;

verus! {

/// The number that an input key adds to the sum: that of a taproot key whose point is odd is
/// negated.
pub open spec fn input_number(key: nat, is_taproot: bool) -> nat {
    if is_taproot && compressed_point(key)[0] == 3 {
        (curve_order() - key) as nat
    } else {
        key
    }
}

/// The sum of the input keys. There is none if no key is given, or if the sum of the first of them
/// is zero at any point.
pub open spec fn input_sum(keys: Seq<(nat, bool)>) -> Option<nat>
    decreases keys.len(),
{
    if keys.len() == 0 {
        None
    } else {
        let number = input_number(keys.last().0, keys.last().1);
        if keys.len() == 1 {
            Some(number)
        } else {
            match input_sum(keys.drop_last()) {
                None => None,
                Some(sum) => if add_mod(sum, number) == 0 {
                    None
                } else {
                    Some(add_mod(sum, number))
                },
            }
        }
    }
}

/// Whether `outpoint` is the smallest of some outpoints: it comes first in lexicographic order.
pub open spec fn is_smallest(outpoints: Seq<Seq<u8>>, outpoint: Seq<u8>) -> bool {
    &&& outpoints.contains(outpoint)
    &&& forall|i: int|
        0 <= i < outpoints.len() ==> be_nat(outpoint) <= be_nat(#[trigger] outpoints[i])
}

/// The smallest of some outpoints.
pub open spec fn smallest(outpoints: Seq<Seq<u8>>) -> Seq<u8> {
    choose|outpoint: Seq<u8>| is_smallest(outpoints, outpoint)
}

/// The number of the hash of the inputs: of the smallest outpoint, and of the point of the key sum.
pub open spec fn input_hash(sum: nat, outpoints: Seq<Seq<u8>>) -> nat {
    be_nat(tagged_hash("BIP0352/Inputs"@, smallest(outpoints) + compressed_point(sum)))
}

/// The key sum times the input hash. There is none if there is no sum, or if the product is zero.
pub open spec fn partial_secret(keys: Seq<(nat, bool)>, outpoints: Seq<Seq<u8>>) -> Option<nat> {
    match input_sum(keys) {
        None => None,
        Some(sum) => if mul_mod(sum, input_hash(sum, outpoints)) == 0 {
            None
        } else {
            Some(mul_mod(sum, input_hash(sum, outpoints)))
        },
    }
}

/// Whether the input hash, if it comes to that, is below the curve order.
pub open spec fn hash_in_range(keys: Seq<(nat, bool)>, outpoints: Seq<Seq<u8>>) -> bool {
    input_sum(keys) matches Some(sum) ==> input_hash(sum, outpoints) < curve_order()
}

/// The numbers of some keys, each with its mark.
pub open spec fn key_numbers(keys: Seq<(SecretKey, bool)>) -> Seq<(nat, bool)> {
    Seq::new(keys.len(), |i: int| (keys[i].0@, keys[i].1))
}

/// The bytes of some outpoints.
pub open spec fn outpoint_bytes(outpoints: Seq<[u8; 36]>) -> Seq<Seq<u8>> {
    Seq::new(outpoints.len(), |i: int| outpoints[i]@)
}

/// The bytes of an outpoint, or the text of the error: the transaction in the order of the wire,
/// which is the reverse of the order in which it is shown, then the index, least byte first.
pub open spec fn outpoint_of(txid: Seq<char>, vout: u32) -> Result<Seq<u8>, Seq<char>> {
    match hex_bytes(encode_utf8(txid)) {
        None => Err(hex_error(encode_utf8(txid))),
        Some(bytes) => if bytes.len() == 32 {
            Ok(bytes.reverse() + be_bytes(vout as nat, 4).reverse())
        } else {
            Err("Invalid outpoint hex representation: "@ + txid)
        },
    }
}

/// Calls `silentpayments::utils::OutPoint::from_txid_and_vout`.
///
/// It reads 32 bytes of hexadecimal digits, reverses them, and appends the index, least byte first.
/// The error is handed out as the text that it displays: that of the digits, or one that quotes text
/// of another length.
#[verifier::external_body]
fn outpoint_from_txid_and_vout(txid: &str, vout: u32) -> (r: Result<[u8; 36], String>)
    ensures
        match outpoint_of(txid@, vout) {
            Ok(bytes) => r matches Ok(outpoint) && outpoint@ == bytes,
            Err(m) => r matches Err(text) && text@ == m,
        },
{
    silentpayments::utils::OutPoint::from_txid_and_vout(txid.to_owned(), vout).map(
        |outpoint| outpoint.to_bytes(),
    ).map_err(|e| e.to_string())
}

/// Calls `silentpayments::utils::sending::calculate_partial_secret`.
///
/// It negates the taproot keys whose point is odd, adds the keys, and multiplies the sum by the
/// tagged hash of the smallest outpoint and the point of the sum. A sum or a product of zero is
/// refused; the one error is handed out as the text that it displays. A hash beyond the curve order
/// would end in a panic.
#[verifier::external_body]
fn calculate_partial_secret(keys: &Vec<(SecretKey, bool)>, outpoints: &Vec<[u8; 36]>) -> (r: Result<
    [u8; 32],
    String,
>)
    requires
        keys@.len() > 0,
        outpoints@.len() > 0,
        hash_in_range(key_numbers(keys@), outpoint_bytes(outpoints@)),
    ensures
        match partial_secret(key_numbers(keys@), outpoint_bytes(outpoints@)) {
            Some(secret) => r matches Ok(bytes) && bytes@ == be_bytes(secret, 32),
            None => r matches Err(text) && text@ == tweak_text(),
        },
{
    let keys: Vec<(secp256k1::SecretKey, bool)> = keys.iter().map(
        |key| (secp256k1::SecretKey::from_slice(&key.0.bytes).unwrap(), key.1),
    ).collect();
    let outpoints: Vec<silentpayments::utils::OutPoint> = outpoints.iter().map(
        |bytes| silentpayments::utils::OutPoint::from_bytes(*bytes),
    ).collect();
    silentpayments::utils::sending::calculate_partial_secret(&keys, &outpoints).map(
        |secret| secret.secret_bytes(),
    ).map_err(|e| e.to_string())
}

/// The number and the outpoint of one input. With `detailed`, the text of an error says more.
pub open spec fn input_parts(input: InputView, detailed: bool) -> Result<(nat, Seq<u8>), ErrorView> {
    match secret_from_hex(input.secret_key_hex, if detailed { "Invalid input key: "@ } else { ""@ }) {
        Err(e) => Err(e),
        Ok(key) => match outpoint_of(input.txid, input.vout) {
            Err(text) => Err(
                ErrorView::EncodingError(
                    if detailed {
                        "Invalid outpoint ("@ + input.txid + ":"@ + decimal(input.vout as nat)
                            + "): "@ + text
                    } else {
                        text
                    },
                ),
            ),
            Ok(outpoint) => Ok((key, outpoint)),
        },
    }
}

/// The numbers and the outpoints of some inputs, or the error of the first that has none.
pub open spec fn inputs_parts(inputs: Seq<InputView>, detailed: bool) -> Result<
    (Seq<(nat, bool)>, Seq<Seq<u8>>),
    ErrorView,
>
    decreases inputs.len(),
{
    if inputs.len() == 0 {
        Ok((Seq::empty(), Seq::empty()))
    } else {
        match inputs_parts(inputs.drop_last(), detailed) {
            Err(e) => Err(e),
            Ok((keys, outpoints)) => match input_parts(inputs.last(), detailed) {
                Err(e) => Err(e),
                Ok((key, outpoint)) => Ok(
                    (keys.push((key, inputs.last().is_taproot)), outpoints.push(outpoint)),
                ),
            },
        }
    }
}

/// Whether the input hash of some inputs, if it comes to that, is below the curve order.
pub open spec fn inputs_in_range(inputs: Seq<InputView>) -> bool {
    match inputs_parts(inputs, true) {
        Err(_) => true,
        Ok((keys, outpoints)) => hash_in_range(keys, outpoints),
    }
}

/// The partial secret of some inputs. With `detailed`, the text of an error says more.
pub open spec fn sender_secret(inputs: Seq<InputView>, detailed: bool) -> Result<nat, ErrorView> {
    match inputs_parts(inputs, detailed) {
        Err(e) => Err(e),
        Ok((keys, outpoints)) => match partial_secret(keys, outpoints) {
            None => Err(
                ErrorView::CryptoError(
                    if detailed {
                        "Partial secret computation failed: "@ + tweak_text()
                    } else {
                        tweak_text()
                    },
                ),
            ),
            Some(secret) => Ok(secret),
        },
    }
}

/// How much an error says does not change what comes out otherwise.
pub proof fn lemma_inputs_parts(inputs: Seq<InputView>)
    ensures
        inputs_parts(inputs, true) is Ok <==> inputs_parts(inputs, false) is Ok,
        inputs_parts(inputs, true) is Ok ==> inputs_parts(inputs, true) == inputs_parts(
            inputs,
            false,
        ),
    decreases inputs.len(),
{
    if inputs.len() > 0 {
        lemma_inputs_parts(inputs.drop_last());
    }
}

/// The first of some inputs that has no parts decides for all of them.
proof fn lemma_inputs_parts_error(inputs: Seq<InputView>, detailed: bool, n: int)
    requires
        0 <= n <= inputs.len(),
        inputs_parts(inputs.take(n), detailed) is Err,
    ensures
        inputs_parts(inputs, detailed) == inputs_parts(inputs.take(n), detailed),
    decreases inputs.len() - n,
{
    if n == inputs.len() {
        assert(inputs.take(n) =~= inputs);
    } else {
        assert(inputs.take(n + 1).drop_last() =~= inputs.take(n));
        lemma_inputs_parts_error(inputs, detailed, n + 1);
    }
}

/// Every input gives one number and one outpoint.
pub proof fn lemma_inputs_parts_len(inputs: Seq<InputView>, detailed: bool)
    requires
        inputs_parts(inputs, detailed) is Ok,
    ensures
        inputs_parts(inputs, detailed)->Ok_0.0.len() == inputs.len(),
        inputs_parts(inputs, detailed)->Ok_0.1.len() == inputs.len(),
    decreases inputs.len(),
{
    if inputs.len() > 0 {
        lemma_inputs_parts_len(inputs.drop_last(), detailed);
    }
}

/// Reads the key and the outpoint of one input.
fn parse_input(input: &SendingInput, detailed: bool) -> (r: Result<
    (SecretKey, [u8; 36]),
    SilentPaymentError,
>)
    ensures
        meets(r, input_parts(input@, detailed)),
{
    let prefix: &str = if detailed {
        "Invalid input key: "
    } else {
        ""
    };
    let key: SecretKey = match parse_secret_key(input.secret_key_hex.as_str(), prefix) {
        Ok(key) => key,
        Err(e) => return Err(e),
    };
    match outpoint_from_txid_and_vout(input.txid.as_str(), input.vout) {
        Ok(outpoint) => Ok((key, outpoint)),
        Err(text) => {
            if !detailed {
                return Err(encoding_error(text.as_str()));
            }
            let head: String = join3("Invalid outpoint (", input.txid.as_str(), ":");
            let place: String = join3(head.as_str(), decimal_text(input.vout).as_str(), "): ");
            Err(encoding_error(join(place.as_str(), text.as_str()).as_str()))
        },
    }
}

/// Reads the keys and the outpoints of some inputs.
fn parse_inputs(inputs: &Vec<SendingInput>, detailed: bool) -> (r: Result<
    (Vec<(SecretKey, bool)>, Vec<[u8; 36]>),
    SilentPaymentError,
>)
    ensures
        match inputs_parts(input_views(inputs@), detailed) {
            Ok(parts) => r matches Ok(p) && (key_numbers(p.0@), outpoint_bytes(p.1@)) == parts
                && p.0@.len() == inputs@.len() && p.1@.len() == inputs@.len(),
            Err(m) => r matches Err(e) && e@ == m,
        },
{
    let ghost all = input_views(inputs@);
    let mut keys: Vec<(SecretKey, bool)> = Vec::new();
    let mut outpoints: Vec<[u8; 36]> = Vec::new();
    assert(key_numbers(keys@) =~= Seq::empty());
    assert(outpoint_bytes(outpoints@) =~= Seq::empty());
    let mut i: usize = 0;
    while i < inputs.len()
        invariant
            i <= inputs@.len(),
            keys@.len() == i,
            outpoints@.len() == i,
            all == input_views(inputs@),
            inputs_parts(all.take(i as int), detailed) == Ok::<_, ErrorView>(
                (key_numbers(keys@), outpoint_bytes(outpoints@)),
            ),
        decreases inputs@.len() - i,
    {
        proof {
            let step = all.take(i + 1);
            assert(step.drop_last() =~= all.take(i as int));
            assert(step.last() == inputs@[i as int]@);
        }
        match parse_input(&inputs[i], detailed) {
            Ok((key, outpoint)) => {
                let ghost (keys_before, outpoints_before) = (keys@, outpoints@);
                keys.push((key, inputs[i].is_taproot));
                outpoints.push(outpoint);
                assert(key_numbers(keys@) =~= key_numbers(keys_before).push(
                    (key@, inputs@[i as int].is_taproot),
                ));
                assert(outpoint_bytes(outpoints@) =~= outpoint_bytes(outpoints_before).push(
                    outpoint@,
                ));
            },
            Err(e) => {
                proof {
                    lemma_inputs_parts_error(all, detailed, i + 1);
                }
                return Err(e);
            },
        }
        i = i + 1;
    }
    assert(all.take(i as int) =~= all);
    Ok((keys, outpoints))
}

/// The partial secret of some inputs.
fn compute_sender_secret(inputs: &Vec<SendingInput>, detailed: bool) -> (r: Result<
    SecretKey,
    SilentPaymentError,
>)
    requires
        inputs@.len() > 0,
        inputs_in_range(input_views(inputs@)),
    ensures
        meets(r, sender_secret(input_views(inputs@), detailed)),
{
    proof {
        lemma_inputs_parts(input_views(inputs@));
    }
    let (keys, outpoints): (Vec<(SecretKey, bool)>, Vec<[u8; 36]>) = match parse_inputs(
        inputs,
        detailed,
    ) {
        Ok(parts) => parts,
        Err(e) => return Err(e),
    };
    let secret: [u8; 32] = match calculate_partial_secret(&keys, &outpoints) {
        Ok(secret) => secret,
        Err(text) => {
            if !detailed {
                return Err(crypto_error(text.as_str()));
            }
            return Err(
                crypto_error(join("Partial secret computation failed: ", text.as_str()).as_str()),
            );
        },
    };
    proof {
        lemma_scalar_bytes(partial_secret(key_numbers(keys@), outpoint_bytes(outpoints@)).unwrap());
    }
    match SecretKey::from_slice(secret.as_slice()) {
        Ok(key) => Ok(key),
        Err(text) => {
            if !detailed {
                return Err(crypto_error(text.as_str()));
            }
            Err(crypto_error(join("Partial secret is invalid scalar: ", text.as_str()).as_str()))
        },
    }
}

/// The sum of the input keys, if there is one.
pub fn compute_input_sum(keys: &Vec<(SecretKey, bool)>) -> (r: Option<SecretKey>)
    ensures
        match input_sum(key_numbers(keys@)) {
            None => r is None,
            Some(sum) => r matches Some(key) && key@ == sum,
        },
{
    let ghost all = key_numbers(keys@);
    let mut sum: Option<SecretKey> = None;
    let mut i: usize = 0;
    while i < keys.len()
        invariant
            i <= keys@.len(),
            all == key_numbers(keys@),
            i == 0 <==> sum is None,
            match input_sum(all.take(i as int)) {
                None => sum is None,
                Some(number) => sum matches Some(key) && key@ == number,
            },
        decreases keys@.len() - i,
    {
        let (key, is_taproot): (SecretKey, bool) = keys[i];
        proof {
            let step = all.take(i + 1);
            assert(step.drop_last() =~= all.take(i as int));
            assert(step.last() == (key@, is_taproot));
            use_type_invariant(key);
        }
        let point: [u8; 33] = PublicKey::from_secret_key(&key).serialize();
        let number: SecretKey = if is_taproot && point[0] == 3 {
            key.negate()
        } else {
            key
        };
        sum =
        match sum {
            None => Some(number),
            Some(total) => match total.add_tweak(&number.to_scalar()) {
                Ok(next) => Some(next),
                Err(_) => {
                    proof {
                        lemma_input_sum_error(all, i + 1);
                    }
                    return None;
                },
            },
        };
        i = i + 1;
    }
    assert(all.take(i as int) =~= all);
    sum
}

/// If the first `n` keys, of which there are some, have no sum, all of them have none.
proof fn lemma_input_sum_error(keys: Seq<(nat, bool)>, n: int)
    requires
        0 < n <= keys.len(),
        input_sum(keys.take(n)) is None,
    ensures
        input_sum(keys) is None,
    decreases keys.len() - n,
{
    if n == keys.len() {
        assert(keys.take(n) =~= keys);
    } else {
        assert(keys.take(n + 1).drop_last() =~= keys.take(n));
        lemma_input_sum_error(keys, n + 1);
    }
}

/// The smallest of some outpoints.
fn smallest_outpoint(outpoints: &Vec<[u8; 36]>) -> (r: [u8; 36])
    requires
        outpoints@.len() > 0,
    ensures
        r@ == smallest(outpoint_bytes(outpoints@)),
{
    let ghost all = outpoint_bytes(outpoints@);
    let mut least: usize = 0;
    let mut i: usize = 1;
    while i < outpoints.len()
        invariant
            least < i <= outpoints@.len(),
            all == outpoint_bytes(outpoints@),
            forall|j: int| 0 <= j < i ==> be_nat(all[least as int]) <= be_nat(#[trigger] all[j]),
        decreases outpoints@.len() - i,
    {
        if is_less(outpoints[i].as_slice(), outpoints[least].as_slice()) {
            least = i;
        }
        i = i + 1;
    }
    proof {
        assert(all.contains(all[least as int]));
        assert(is_smallest(all, all[least as int]));
        let other = smallest(all);
        assert(is_smallest(all, other));
        let j = choose|j: int| 0 <= j < all.len() && all[j] == other;
        lemma_be_nat_injective(all[least as int], all[j]);
    }
    outpoints[least]
}

/// Whether the input hash, if it comes to that, is below the curve order.
fn is_hash_in_range(keys: &Vec<(SecretKey, bool)>, outpoints: &Vec<[u8; 36]>) -> (r: bool)
    requires
        outpoints@.len() > 0,
    ensures
        r == hash_in_range(key_numbers(keys@), outpoint_bytes(outpoints@)),
{
    match compute_input_sum(keys) {
        None => true,
        Some(sum) => {
            let point: [u8; 33] = PublicKey::from_secret_key(&sum).serialize();
            let message: Vec<u8> = concat(smallest_outpoint(outpoints).as_slice(), point.as_slice());
            let hash: [u8; 32] = compute_tagged_hash("BIP0352/Inputs", message.as_slice());
            Scalar::from_be_bytes(hash).is_some()
        },
    }
}

/// Whether the input hash of some inputs, if it comes to that, is below the curve order.
fn are_inputs_in_range(inputs: &Vec<SendingInput>) -> (r: bool)
    ensures
        r == (inputs@.len() == 0 || inputs_in_range(input_views(inputs@))),
{
    if inputs.len() == 0 {
        return true;
    }
    match parse_inputs(inputs, true) {
        Ok((keys, outpoints)) => is_hash_in_range(&keys, &outpoints),
        Err(_) => true,
    }
}

/// The outcome of asking for the tweak data of some inputs.
pub open spec fn tweak_data_of(inputs: Seq<InputView>) -> Result<Seq<char>, ErrorView> {
    if inputs.len() == 0 {
        Err(ErrorView::InvalidKey("inputs must not be empty"@))
    } else {
        match sender_secret(inputs, false) {
            Err(e) => Err(e),
            Ok(secret) => Ok(hex_text(compressed_point(secret))),
        }
    }
}

/// The tweak data of a transaction with the given inputs: the generator times the partial secret.
///
/// This is what an index server hands to scanners.
pub fn compute_sender_tweak_data(inputs: Vec<SendingInput>) -> (r: Result<String, SilentPaymentError>)
    requires
        inputs@.len() == 0 || inputs_in_range(input_views(inputs@)),
    ensures
        meets(r, tweak_data_of(input_views(inputs@))),
        r matches Ok(s) ==> is_key_text(s@) && is_point(
            compressed_point(sender_secret(input_views(inputs@), false)->Ok_0),
        ),
{
    if inputs.len() == 0 {
        return Err(invalid_key("inputs must not be empty"));
    }
    let partial_scalar: SecretKey = match compute_sender_secret(&inputs, false) {
        Ok(key) => key,
        Err(e) => return Err(e),
    };
    let tweak_pubkey: PublicKey = PublicKey::from_secret_key(&partial_scalar);
    proof {
        use_type_invariant(tweak_pubkey);
        lemma_key_text(tweak_pubkey@);
    }
    Ok(hex_encode(tweak_pubkey.serialize().as_slice()))
}

/// The tweak data of a transaction with the given inputs, or `None` if their hash is beyond the
/// curve order.
pub fn try_compute_sender_tweak_data(inputs: Vec<SendingInput>) -> (r: Option<
    Result<String, SilentPaymentError>,
>)
    ensures
        if inputs@.len() == 0 || inputs_in_range(input_views(inputs@)) {
            r matches Some(outcome) && meets(outcome, tweak_data_of(input_views(inputs@))) && (
            outcome matches Ok(s) ==> is_key_text(s@) && is_point(
                compressed_point(sender_secret(input_views(inputs@), false)->Ok_0),
            ))
        } else {
            r is None
        },
{
    if !are_inputs_in_range(&inputs) {
        return None;
    }
    Some(compute_sender_tweak_data(inputs))
}

/// How many of some addresses have the given scan key.
pub open spec fn same_scan(addresses: Seq<Seq<char>>, scan: Seq<u8>) -> nat
    decreases addresses.len(),
{
    if addresses.len() == 0 {
        0
    } else {
        same_scan(addresses.drop_last(), scan) + (if has_scan(addresses.last(), scan) {
            1nat
        } else {
            0nat
        })
    }
}

/// Whether an address has the given scan key.
pub open spec fn has_scan(address: Seq<char>, scan: Seq<u8>) -> bool {
    address_keys(address) matches Ok(keys) && keys.0 == scan
}

/// The output that pays to an address after some others: the outputs to one scan key are numbered
/// 0, 1 and so on.
pub open spec fn sent_output(secret: nat, earlier: Seq<Seq<char>>, address: Seq<char>) -> Result<
    OutputView,
    ErrorView,
> {
    match address_keys(address) {
        Err(e) => Err(e),
        Ok((scan, spend)) => {
            let shared = shared_point(secret, point_log(scan));
            let k = same_scan(earlier, scan);
            match output_error(point_log(spend), shared, k) {
                Some(e) => Err(e),
                None => Ok(
                    OutputView {
                        pubkey_hex: hex_text(
                            compressed_point(output_log(point_log(spend), shared, k)),
                        ),
                        recipient_address: address,
                    },
                ),
            }
        },
    }
}

/// The outputs that pay to some addresses, or the error of the first that has none.
pub open spec fn sent_outputs(secret: nat, addresses: Seq<Seq<char>>) -> Result<
    Seq<OutputView>,
    ErrorView,
>
    decreases addresses.len(),
{
    if addresses.len() == 0 {
        Ok(Seq::empty())
    } else {
        match sent_outputs(secret, addresses.drop_last()) {
            Err(e) => Err(e),
            Ok(outputs) => match sent_output(secret, addresses.drop_last(), addresses.last()) {
                Err(e) => Err(e),
                Ok(output) => Ok(outputs.push(output)),
            },
        }
    }
}

/// Whether the address at `i`, if it comes to that, can be counted: not as many as a counter can hold
/// have its scan key before it.
pub open spec fn can_count(secret: nat, addresses: Seq<Seq<char>>, i: int) -> bool {
    sent_outputs(secret, addresses.take(i)) is Ok ==> match address_keys(addresses[i]) {
        Ok((scan, _)) => same_scan(addresses.take(i), scan) < u32::MAX,
        Err(_) => true,
    }
}

/// Whether all addresses up to the first that has no output can be counted.
pub open spec fn counts_fit(secret: nat, addresses: Seq<Seq<char>>) -> bool {
    forall|i: int| 0 <= i < addresses.len() ==> #[trigger] can_count(secret, addresses, i)
}

/// Whether the outputs that pay from some inputs to some addresses can be asked for. Where both are
/// given, the input hash, if it comes to that, has to be below the curve order, and the addresses, if
/// it comes to them, have to be countable.
pub open spec fn can_create(inputs: Seq<InputView>, addresses: Seq<Seq<char>>) -> bool {
    inputs.len() > 0 && addresses.len() > 0 ==> {
        &&& inputs_in_range(inputs)
        &&& sender_secret(inputs, true) matches Ok(secret) ==> counts_fit(secret, addresses)
    }
}

/// The outcome of asking for the outputs that pay from some inputs to some addresses.
pub open spec fn outputs_of(inputs: Seq<InputView>, addresses: Seq<Seq<char>>) -> Result<
    Seq<OutputView>,
    ErrorView,
> {
    if inputs.len() == 0 {
        Err(ErrorView::InvalidKey("At least one input private key is required"@))
    } else if addresses.len() == 0 {
        Err(ErrorView::InvalidAddress("At least one recipient is required"@))
    } else {
        match sender_secret(inputs, true) {
            Err(e) => Err(e),
            Ok(secret) => sent_outputs(secret, addresses),
        }
    }
}

/// The address that has no output decides for all that follow.
pub proof fn lemma_sent_outputs_error(secret: nat, addresses: Seq<Seq<char>>, n: int)
    requires
        0 <= n <= addresses.len(),
        sent_outputs(secret, addresses.take(n)) is Err,
    ensures
        sent_outputs(secret, addresses) == sent_outputs(secret, addresses.take(n)),
    decreases addresses.len() - n,
{
    if n == addresses.len() {
        assert(addresses.take(n) =~= addresses);
    } else {
        assert(addresses.take(n + 1).drop_last() =~= addresses.take(n));
        lemma_sent_outputs_error(secret, addresses, n + 1);
    }
}

/// No more addresses have a scan key than there are addresses.
pub proof fn lemma_same_scan_bound(addresses: Seq<Seq<char>>, scan: Seq<u8>)
    ensures
        same_scan(addresses, scan) <= addresses.len(),
    decreases addresses.len(),
{
    if addresses.len() > 0 {
        lemma_same_scan_bound(addresses.drop_last(), scan);
    }
}

/// The number in the first entry for a key, or zero if there is no entry for it.
#[verifier::opaque]
spec fn counted(counters: Seq<([u8; 33], u32)>, key: Seq<u8>) -> nat
    decreases counters.len(),
{
    if counters.len() == 0 {
        0
    } else if counters[0].0@ == key {
        counters[0].1 as nat
    } else {
        counted(counters.skip(1), key)
    }
}

/// What counts is the first entry for the key.
proof fn lemma_counted_at(counters: Seq<([u8; 33], u32)>, key: Seq<u8>, i: int)
    requires
        0 <= i < counters.len(),
        counters[i].0@ == key,
        forall|j: int| 0 <= j < i ==> (#[trigger] counters[j]).0@ != key,
    ensures
        counted(counters, key) == counters[i].1,
    decreases i,
{
    reveal(counted);
    if i > 0 {
        let rest = counters.skip(1);
        assert forall|j: int| 0 <= j < i - 1 implies (#[trigger] rest[j]).0@ != key by {
            assert(rest[j] == counters[j + 1]);
        }
        lemma_counted_at(rest, key, i - 1);
    }
}

/// Other entries do not matter for a key.
proof fn lemma_counted_other(
    before: Seq<([u8; 33], u32)>,
    after: Seq<([u8; 33], u32)>,
    changed: int,
    key: Seq<u8>,
)
    requires
        0 <= changed < after.len(),
        after[changed].0@ != key,
        after.len() == before.len() && before[changed].0@ != key || after.len() == before.len() + 1
            && changed == before.len(),
        forall|j: int| 0 <= j < before.len() && j != changed ==> before[j] == #[trigger] after[j],
    ensures
        counted(after, key) == counted(before, key),
    decreases before.len(),
{
    reveal(counted);
    if before.len() == 0 {
        assert(counted(after.skip(1), key) == 0);
    } else if changed == 0 {
        assert(after.skip(1) =~= before.skip(1));
    } else if before[0].0@ != key {
        assert(after[0] == before[0]);
        lemma_counted_other(before.skip(1), after.skip(1), changed - 1, key);
    } else {
        assert(after[0] == before[0]);
    }
}

/// A key without an entry counts zero.
proof fn lemma_counted_none(counters: Seq<([u8; 33], u32)>, key: Seq<u8>)
    requires
        forall|j: int| 0 <= j < counters.len() ==> (#[trigger] counters[j]).0@ != key,
    ensures
        counted(counters, key) == 0,
    decreases counters.len(),
{
    reveal(counted);
    if counters.len() > 0 {
        let rest = counters.skip(1);
        assert forall|j: int| 0 <= j < rest.len() implies (#[trigger] rest[j]).0@ != key by {
            assert(rest[j] == counters[j + 1]);
        }
        lemma_counted_none(rest, key);
    }
}

/// Counts a key: returns how often it was counted before, or `None` if the counter is at its end.
fn count_key(counters: &mut Vec<([u8; 33], u32)>, key: [u8; 33]) -> (r: Option<u32>)
    ensures
        match r {
            None => counted(old(counters)@, key@) == u32::MAX && final(counters)@ == old(
                counters,
            )@,
            Some(k) => {
                &&& k == counted(old(counters)@, key@) < u32::MAX
                &&& counted(final(counters)@, key@) == k + 1
                &&& forall|other: Seq<u8>|
                    other != key@ ==> #[trigger] counted(final(counters)@, other) == counted(
                        old(counters)@,
                        other,
                    )
            },
        },
{
    let ghost before = counters@;
    let mut i: usize = 0;
    while i < counters.len()
        invariant
            i <= counters@.len(),
            counters@ == before,
            before == old(counters)@,
            forall|j: int| 0 <= j < i ==> (#[trigger] counters@[j]).0@ != key@,
        decreases counters@.len() - i,
    {
        let (entry, k): ([u8; 33], u32) = counters[i];
        if same_bytes(entry.as_slice(), key.as_slice()) {
            proof {
                lemma_counted_at(before, key@, i as int);
            }
            if k == u32::MAX {
                return None;
            }
            counters[i] = (entry, k + 1);
            proof {
                lemma_counted_at(counters@, key@, i as int);
                assert forall|other: Seq<u8>| other != key@ implies #[trigger] counted(
                    counters@,
                    other,
                ) == counted(before, other) by {
                    lemma_counted_other(before, counters@, i as int, other);
                }
            }
            return Some(k);
        }
        i = i + 1;
    }
    counters.push((key, 1));
    proof {
        lemma_counted_none(before, key@);
        lemma_counted_at(counters@, key@, before.len() as int);
        assert forall|other: Seq<u8>| other != key@ implies #[trigger] counted(counters@, other)
            == counted(before, other) by {
            lemma_counted_other(before, counters@, before.len() as int, other);
        }
    }
    Some(0)
}

/// The output `k` that pays to an address with the given keys.
fn pay_to(
    partial_scalar: &SecretKey,
    scan_pk: &PublicKey,
    spend_pk: &PublicKey,
    k: u32,
) -> (r: Result<PublicKey, SilentPaymentError>)
    ensures
        ({
            let spend = point_log(spend_pk@);
            let shared = shared_point(partial_scalar@, point_log(scan_pk@));
            match output_error(spend, shared, k as nat) {
                Some(m) => r matches Err(e) && e@ == m,
                None => r matches Ok(key) && key@ == compressed_point(
                    output_log(spend, shared, k as nat),
                ),
            }
        }),
{
    let ecdh_pubkey: PublicKey = match ecdh_point(scan_pk, partial_scalar) {
        Ok(key) => key,
        Err(e) => return Err(e),
    };
    let t_k: SecretKey = match compute_t_n(&ecdh_pubkey, k) {
        Ok(key) => key,
        Err(e) => return Err(e),
    };
    compute_p_n(spend_pk, &t_k)
}

/// Whether the counters hold how many of some addresses have each scan key.
spec fn are_counted(counters: Seq<([u8; 33], u32)>, addresses: Seq<Seq<char>>) -> bool {
    forall|key: Seq<u8>| #[trigger] counted(counters, key) == same_scan(addresses, key)
}

/// The output that pays to an address after some others, whose scan keys were counted, or `None` if
/// the address cannot be counted.
fn next_output(
    partial_scalar: &SecretKey,
    counters: &mut Vec<([u8; 33], u32)>,
    address: &str,
    Ghost(earlier): Ghost<Seq<Seq<char>>>,
) -> (r: Option<Result<OutputWithKey, SilentPaymentError>>)
    requires
        are_counted(old(counters)@, earlier),
    ensures
        match r {
            None => address_keys(address@) matches Ok(keys) && same_scan(earlier, keys.0)
                >= u32::MAX,
            Some(outcome) => {
                &&& address_keys(address@) matches Ok(keys) ==> same_scan(earlier, keys.0)
                    < u32::MAX
                &&& meets(outcome, sent_output(partial_scalar@, earlier, address@))
                &&& outcome matches Ok(output) ==> {
                    &&& is_key_text(output.pubkey_hex@)
                    &&& are_counted(final(counters)@, earlier.push(address@))
                }
            },
        },
{
    let (scan_pk, spend_pk): (PublicKey, PublicKey) = match parse_sp_address(address) {
        Ok(keys) => keys,
        Err(e) => return Some(Err(e)),
    };
    assert(counted(counters@, scan_pk@) == same_scan(earlier, scan_pk@));
    let ghost before = counters@;
    let k: u32 = match count_key(counters, scan_pk.serialize()) {
        Some(k) => k,
        None => return None,
    };
    proof {
        let later = earlier.push(address@);
        assert(later.drop_last() =~= earlier);
        assert forall|key: Seq<u8>| #[trigger] counted(counters@, key) == same_scan(later, key) by {
            assert(has_scan(address@, key) <==> key == scan_pk@);
            assert(counted(before, key) == same_scan(earlier, key));
        }
    }
    let p_k: PublicKey = match pay_to(partial_scalar, &scan_pk, &spend_pk, k) {
        Ok(key) => key,
        Err(e) => return Some(Err(e)),
    };
    proof {
        use_type_invariant(p_k);
        lemma_key_text(p_k@);
    }
    Some(
        Ok(
            OutputWithKey {
                pubkey_hex: hex_encode(p_k.serialize().as_slice()),
                recipient_address: address.to_owned(),
            },
        ),
    )
}

/// The outputs that pay to some recipients, or `None` if one of them cannot be counted.
fn pay_all(partial_scalar: &SecretKey, recipients: &Vec<PaymentRecipient>) -> (r: Option<
    Result<Vec<OutputWithKey>, SilentPaymentError>,
>)
    ensures
        r is Some <==> counts_fit(partial_scalar@, addresses(recipients@)),
        r matches Some(outcome) ==> match sent_outputs(partial_scalar@, addresses(recipients@)) {
            Ok(outputs) => outcome matches Ok(keys) && output_views(keys@) == outputs && (
            forall|j: int|
                0 <= j < keys@.len() ==> is_key_text((#[trigger] keys@[j]).pubkey_hex@)),
            Err(m) => outcome matches Err(e) && e@ == m,
        },
{
    let ghost secret = partial_scalar@;
    let ghost all = addresses(recipients@);
    let mut counters: Vec<([u8; 33], u32)> = Vec::new();
    assert forall|key: Seq<u8>| #[trigger] counted(counters@, key) == same_scan(
        all.take(0),
        key,
    ) by {
        lemma_counted_none(counters@, key);
    }
    assert(are_counted(counters@, all.take(0)));
    let mut outputs: Vec<OutputWithKey> = Vec::new();
    assert(output_views(outputs@) =~= Seq::empty());
    let mut i: usize = 0;
    while i < recipients.len()
        invariant
            i <= recipients@.len(),
            all == addresses(recipients@),
            secret == partial_scalar@,
            are_counted(counters@, all.take(i as int)),
            forall|j: int| 0 <= j < i ==> #[trigger] can_count(secret, all, j),
            forall|j: int|
                0 <= j < outputs@.len() ==> is_key_text((#[trigger] outputs@[j]).pubkey_hex@),
            sent_outputs(secret, all.take(i as int)) == Ok::<_, ErrorView>(output_views(outputs@)),
        decreases recipients@.len() - i,
    {
        let address: &str = recipients[i].address.as_str();
        let ghost earlier = all.take(i as int);
        proof {
            assert(all.take(i + 1) =~= earlier.push(address@));
            assert(all.take(i + 1).drop_last() =~= earlier);
        }
        match next_output(partial_scalar, &mut counters, address, Ghost(earlier)) {
            None => {
                assert(!can_count(secret, all, i as int));
                return None;
            },
            Some(Ok(output)) => {
                let ghost before = output_views(outputs@);
                outputs.push(output);
                assert(output_views(outputs@) =~= before.push(output@));
            },
            Some(Err(e)) => {
                proof {
                    lemma_sent_outputs_error(secret, all, i + 1);
                    assert forall|j: int| 0 <= j < all.len() implies #[trigger] can_count(
                        secret,
                        all,
                        j,
                    ) by {
                        if j > i {
                            assert(all.take(j).take(i + 1) =~= all.take(i + 1));
                            lemma_sent_outputs_error(secret, all.take(j), i + 1);
                        }
                    }
                }
                return Some(Err(e));
            },
        }
        i = i + 1;
    }
    assert(all.take(i as int) =~= all);
    Some(Ok(outputs))
}

/// The public keys of the outputs of a silent payment transaction, in the order of the recipients.
///
/// Call this before the transaction is built. Several payments to one scan key are told apart by
/// a number, which is counted here.
pub fn create_silent_payment_outputs(
    inputs: Vec<SendingInput>,
    recipients: Vec<PaymentRecipient>,
) -> (r: Result<Vec<OutputWithKey>, SilentPaymentError>)
    requires
        can_create(input_views(inputs@), addresses(recipients@)),
    ensures
        match outputs_of(input_views(inputs@), addresses(recipients@)) {
            Ok(outputs) => r matches Ok(keys) && output_views(keys@) == outputs && (forall|j: int|
                0 <= j < keys@.len() ==> is_key_text((#[trigger] keys@[j]).pubkey_hex@)),
            Err(m) => r matches Err(e) && e@ == m,
        },
{
    if inputs.len() == 0 {
        return Err(invalid_key("At least one input private key is required"));
    }
    if recipients.len() == 0 {
        return Err(invalid_address("At least one recipient is required"));
    }
    let partial_scalar: SecretKey = match compute_sender_secret(&inputs, true) {
        Ok(key) => key,
        Err(e) => return Err(e),
    };
    pay_all(&partial_scalar, &recipients).unwrap()
}

/// Whether the outputs that pay from some inputs to some recipients can be asked for.
fn is_creatable(inputs: &Vec<SendingInput>, recipients: &Vec<PaymentRecipient>) -> (r: bool)
    ensures
        r == can_create(input_views(inputs@), addresses(recipients@)),
{
    if inputs.len() == 0 || recipients.len() == 0 {
        return true;
    }
    if !are_inputs_in_range(inputs) {
        return false;
    }
    if recipients.len() as u64 <= u32::MAX as u64 {
        proof {
            let all = addresses(recipients@);
            assert forall|secret: nat, i: int| 0 <= i < all.len() implies #[trigger] can_count(
                secret,
                all,
                i,
            ) by {
                if let Ok((scan, _)) = address_keys(all[i]) {
                    lemma_same_scan_bound(all.take(i), scan);
                }
            }
        }
        return true;
    }
    match compute_sender_secret(inputs, true) {
        Ok(partial_scalar) => pay_all(&partial_scalar, recipients).is_some(),
        Err(_) => true,
    }
}

/// The public keys of the outputs of a silent payment transaction, or `None` if the hash of the
/// inputs is beyond the curve order, or if there are too many recipients with one scan key to be
/// counted.
pub fn try_create_silent_payment_outputs(
    inputs: Vec<SendingInput>,
    recipients: Vec<PaymentRecipient>,
) -> (r: Option<Result<Vec<OutputWithKey>, SilentPaymentError>>)
    ensures
        if can_create(input_views(inputs@), addresses(recipients@)) {
            match outputs_of(input_views(inputs@), addresses(recipients@)) {
                Ok(outputs) => r matches Some(Ok(keys)) && output_views(keys@) == outputs && (
                forall|j: int|
                    0 <= j < keys@.len() ==> is_key_text((#[trigger] keys@[j]).pubkey_hex@)),
                Err(m) => r matches Some(Err(e)) && e@ == m,
            }
        } else {
            r is None
        },
{
    if !is_creatable(&inputs, &recipients) {
        return None;
    }
    Some(create_silent_payment_outputs(inputs, recipients))
}

} // verus!
