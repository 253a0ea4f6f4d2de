//! What a sender computes, on every input.

use crate::address::address_keys;
use crate::bip352::{output_tweak, secret_from_hex};
use crate::bytes::{be_nat, lemma_be_nat_injective};
use crate::curve::{add_mod, compressed_point, curve_order, point_log, SecretKey};
use crate::error::ErrorView;
use crate::hash::sha256;
use crate::laws::numbers::law_four_bytes;
use crate::laws::sending::{law_outputs_in_order, lemma_smallest};
use crate::payment::{
    addresses, input_views, output_views, InputView, OutputView, OutputWithKey, PaymentRecipient,
    SendingInput,
};
use crate::send::{
    can_count, can_create, counts_fit, input_hash, input_number, input_parts, input_sum,
    inputs_in_range, inputs_parts, key_numbers, lemma_same_scan_bound, lemma_sent_outputs_error,
    outpoint_bytes, outpoint_of, outputs_of, same_scan, sender_secret, sent_output, sent_outputs,
    smallest, tweak_data_of,
};
use crate::text::{decimal, hex_bytes, hex_error, hex_text};
use vstd::arithmetic::div_mod::{lemma_add_mod_noop_right, lemma_small_mod};
use vstd::prelude::*;
use vstd::utf8::{encode_utf8, is_ascii_chars_encode_utf8};

verus! {

/// The models of inputs, recipients and outputs keep what they are made of, every item and in order.
pub proof fn law_sending_views(
    inputs: Seq<SendingInput>,
    recipients: Seq<PaymentRecipient>,
    outputs: Seq<OutputWithKey>,
    i: int,
)
    ensures
        input_views(inputs).len() == inputs.len(),
        0 <= i < inputs.len() ==> {
            &&& input_views(inputs)[i].secret_key_hex == inputs[i].secret_key_hex@
            &&& input_views(inputs)[i].is_taproot == inputs[i].is_taproot
            &&& input_views(inputs)[i].txid == inputs[i].txid@
            &&& input_views(inputs)[i].vout == inputs[i].vout
        },
        addresses(recipients).len() == recipients.len(),
        0 <= i < recipients.len() ==> addresses(recipients)[i] == recipients[i].address@,
        output_views(outputs).len() == outputs.len(),
        0 <= i < outputs.len() ==> {
            &&& output_views(outputs)[i].pubkey_hex == outputs[i].pubkey_hex@
            &&& output_views(outputs)[i].recipient_address == outputs[i].recipient_address@
        },
{
}

/// The models of keys and outpoints keep what they are made of, every item and in order.
pub proof fn law_key_views(keys: Seq<(SecretKey, bool)>, outpoints: Seq<[u8; 36]>, i: int)
    ensures
        key_numbers(keys).len() == keys.len(),
        0 <= i < keys.len() ==> key_numbers(keys)[i].0 == keys[i].0@ && key_numbers(keys)[i].1
            == keys[i].1,
        outpoint_bytes(outpoints).len() == outpoints.len(),
        0 <= i < outpoints.len() ==> outpoint_bytes(outpoints)[i] == outpoints[i]@,
{
}

/// An outpoint has 36 bytes: the 32 bytes of the transaction from the last to the first, then the
/// four bytes of the index from the least significant on. It exists if the transaction is the text of
/// 32 bytes.
pub proof fn law_outpoint(txid: Seq<char>, vout: u32)
    ensures
        match hex_bytes(encode_utf8(txid)) {
            None => outpoint_of(txid, vout) == Err::<Seq<u8>, _>(hex_error(encode_utf8(txid))),
            Some(bytes) => {
                &&& bytes.len() != 32 ==> outpoint_of(txid, vout) == Err::<Seq<u8>, _>(
                    "Invalid outpoint hex representation: "@ + txid,
                )
                &&& bytes.len() == 32 ==> (outpoint_of(txid, vout) matches Ok(outpoint) && {
                    &&& outpoint.len() == 36
                    &&& forall|i: int| 0 <= i < 32 ==> #[trigger] outpoint[i] == bytes[31 - i]
                    &&& outpoint[32] == vout as nat % 0x100
                    &&& outpoint[33] == vout as nat / 0x100 % 0x100
                    &&& outpoint[34] == vout as nat / 0x1_0000 % 0x100
                    &&& outpoint[35] == vout as nat / 0x100_0000
                })
            },
        },
{
    law_four_bytes(vout as nat);
}

/// What is read of one input: its key and its outpoint. What is said if it cannot be read depends on
/// whether the details are asked for; the key is looked at first.
pub proof fn law_input_reading(input: InputView)
    ensures
        match secret_from_hex(input.secret_key_hex, "Invalid input key: "@) {
            Err(e) => input_parts(input, true) == Err::<(nat, Seq<u8>), _>(e),
            Ok(key) => match outpoint_of(input.txid, input.vout) {
                Err(text) => input_parts(input, true) == Err::<(nat, Seq<u8>), _>(
                    ErrorView::EncodingError(
                        "Invalid outpoint ("@ + input.txid + ":"@ + decimal(input.vout as nat)
                            + "): "@ + text,
                    ),
                ),
                Ok(outpoint) => input_parts(input, true) == Ok::<_, ErrorView>((key, outpoint)),
            },
        },
        match secret_from_hex(input.secret_key_hex, ""@) {
            Err(e) => input_parts(input, false) == Err::<(nat, Seq<u8>), _>(e),
            Ok(key) => match outpoint_of(input.txid, input.vout) {
                Err(text) => input_parts(input, false) == Err::<(nat, Seq<u8>), _>(
                    ErrorView::EncodingError(text),
                ),
                Ok(outpoint) => input_parts(input, false) == Ok::<_, ErrorView>((key, outpoint)),
            },
        },
{
}

/// All inputs are read, in order, and each with its own mark, if each of them can be read.
pub proof fn law_inputs_reading(inputs: Seq<InputView>, detailed: bool)
    requires
        forall|i: int| 0 <= i < inputs.len() ==> input_parts(#[trigger] inputs[i], detailed) is Ok,
    ensures
        inputs_parts(inputs, detailed) matches Ok(parts) && {
            &&& parts.0.len() == inputs.len()
            &&& parts.1.len() == inputs.len()
            &&& forall|i: int|
                0 <= i < inputs.len() ==> #[trigger] parts.0[i] == (
                    input_parts(inputs[i], detailed)->Ok_0.0,
                    inputs[i].is_taproot,
                )
            &&& forall|i: int|
                0 <= i < inputs.len() ==> #[trigger] parts.1[i] == input_parts(
                    inputs[i],
                    detailed,
                )->Ok_0.1
        },
    decreases inputs.len(),
{
    if inputs.len() > 0 {
        let shorter = inputs.drop_last();
        assert forall|i: int| 0 <= i < shorter.len() implies input_parts(
            #[trigger] shorter[i],
            detailed,
        ) is Ok by {
            assert(shorter[i] == inputs[i]);
        }
        law_inputs_reading(shorter, detailed);
        assert(input_parts(inputs[inputs.len() - 1], detailed) is Ok);
        let before = inputs_parts(shorter, detailed)->Ok_0;
        let parts = inputs_parts(inputs, detailed)->Ok_0;
        assert forall|i: int| 0 <= i < inputs.len() implies #[trigger] parts.0[i] == (
            input_parts(inputs[i], detailed)->Ok_0.0,
            inputs[i].is_taproot,
        ) by {
            if i < shorter.len() {
                assert(parts.0[i] == before.0[i]);
            }
        }
        assert forall|i: int| 0 <= i < inputs.len() implies #[trigger] parts.1[i] == input_parts(
            inputs[i],
            detailed,
        )->Ok_0.1 by {
            if i < shorter.len() {
                assert(parts.1[i] == before.1[i]);
            }
        }
    }
}

/// If an input cannot be read, what is said of the first such input is said of all.
pub proof fn law_inputs_refusal(inputs: Seq<InputView>, detailed: bool, i: int)
    requires
        0 <= i < inputs.len(),
        input_parts(inputs[i], detailed) is Err,
        forall|j: int| 0 <= j < i ==> input_parts(#[trigger] inputs[j], detailed) is Ok,
    ensures
        inputs_parts(inputs, detailed) == Err::<(Seq<(nat, bool)>, Seq<Seq<u8>>), _>(
            input_parts(inputs[i], detailed)->Err_0,
        ),
    decreases inputs.len(),
{
    let shorter = inputs.drop_last();
    if i < shorter.len() {
        law_inputs_refusal(shorter, detailed, i);
    } else {
        law_inputs_reading(shorter, detailed);
    }
}

/// The sum of some keys, of which the taproot keys whose point begins with 3 count as the order of the
/// curve minus the key.
pub open spec fn total(keys: Seq<(nat, bool)>) -> int {
    keys.fold_left(
        0int,
        |sum: int, key: (nat, bool)|
            sum + if key.1 && compressed_point(key.0)[0] == 3 {
                curve_order() - key.0
            } else {
                key.0 as int
            },
    )
}

/// The sum of the input keys is their total modulo the order of the curve. It exists if no total of
/// the first of them is a multiple of the order.
pub proof fn law_key_sum(keys: Seq<(nat, bool)>)
    requires
        forall|i: int| 0 <= i < keys.len() ==> 0 < (#[trigger] keys[i]).0 < curve_order(),
    ensures
        input_sum(keys) is Some <==> keys.len() > 0 && forall|j: int|
            0 < j <= keys.len() ==> total(#[trigger] keys.take(j)) % (curve_order() as int) != 0,
        input_sum(keys) matches Some(sum) ==> sum == total(keys) % (curve_order() as int),
    decreases keys.len(),
{
    let n = curve_order() as int;
    if keys.len() > 0 {
        let shorter = keys.drop_last();
        let last = keys.last();
        assert(0 < keys[keys.len() - 1].0 < curve_order());
        let number = input_number(last.0, last.1);
        assert forall|i: int| 0 <= i < shorter.len() implies 0 < (#[trigger] shorter[i]).0
            < curve_order() by {
            assert(shorter[i] == keys[i]);
        }
        law_key_sum(shorter);
        assert(keys.take(keys.len() as int) =~= keys);
        assert(total(keys) == total(shorter) + number);
        if keys.len() == 1 {
            assert(total(shorter) == 0);
            lemma_small_mod(number, curve_order());
            assert forall|j: int| 0 < j <= keys.len() implies total(#[trigger] keys.take(j)) % n
                != 0 by {
                assert(keys.take(j) =~= keys);
            }
        } else {
            if let Some(sum) = input_sum(shorter) {
                lemma_add_mod_noop_right(number as int, total(shorter), n);
                assert(add_mod(sum, number) == total(keys) % n);
            }
            if input_sum(keys) is Some {
                assert forall|j: int| 0 < j <= keys.len() implies total(#[trigger] keys.take(j)) % n
                    != 0 by {
                    if j < keys.len() {
                        assert(keys.take(j) =~= shorter.take(j));
                    }
                }
            }
            if forall|j: int| 0 < j <= keys.len() ==> total(#[trigger] keys.take(j)) % n != 0 {
                assert forall|j: int| 0 < j <= shorter.len() implies total(
                    #[trigger] shorter.take(j),
                ) % n != 0 by {
                    assert(keys.take(j) =~= shorter.take(j));
                }
                assert(total(keys.take(keys.len() as int)) % n != 0);
            }
        }
    }
}

/// The input hash is the number of the digest of the tag's digest, twice, of the outpoint that comes
/// first, and of the point of the key sum. The tag is `BIP0352/Inputs`, given by its characters in
/// ASCII.
pub proof fn law_input_hash(sum: nat, outpoints: Seq<Seq<u8>>, first: Seq<u8>)
    requires
        forall|i: int| 0 <= i < outpoints.len() ==> (#[trigger] outpoints[i]).len() == 36,
        outpoints.contains(first),
        forall|i: int|
            0 <= i < outpoints.len() ==> be_nat(first) <= be_nat(#[trigger] outpoints[i]),
    ensures
        ({
            let tag = sha256(
                seq![
                    0x42u8, 0x49, 0x50, 0x30, 0x33, 0x35, 0x32, 0x2f, 0x49, 0x6e, 0x70, 0x75, 0x74,
                    0x73,
                ],
            );
            input_hash(sum, outpoints) == be_nat(
                sha256(tag + tag + first + compressed_point(sum)),
            )
        }),
{
    lemma_smallest(outpoints);
    let x = choose|x: int| 0 <= x < outpoints.len() && outpoints[x] == first;
    let y = choose|y: int| 0 <= y < outpoints.len() && outpoints[y] == smallest(outpoints);
    assert(outpoints[x].len() == 36 && outpoints[y].len() == 36);
    lemma_be_nat_injective(first, smallest(outpoints));
    reveal_strlit("BIP0352/Inputs");
    let text = "BIP0352/Inputs"@;
    is_ascii_chars_encode_utf8(text);
    let ascii: Seq<u8> = seq![
        0x42u8, 0x49, 0x50, 0x30, 0x33, 0x35, 0x32, 0x2f, 0x49, 0x6e, 0x70, 0x75, 0x74, 0x73,
    ];
    assert(encode_utf8(text) =~= ascii);
    let tag = sha256(ascii);
    let point = compressed_point(sum);
    assert(tag + tag + (first + point) =~= tag + tag + first + point);
}

/// The secret of the sender is the key sum times the input hash, modulo the order of the curve. There
/// is none if there is no key sum, or if the product is zero.
pub proof fn law_sender_secret(
    inputs: Seq<InputView>,
    detailed: bool,
    keys: Seq<(nat, bool)>,
    outpoints: Seq<Seq<u8>>,
)
    ensures
        inputs_parts(inputs, detailed) == Ok::<_, ErrorView>((keys, outpoints)) ==> {
            let failure = Err::<nat, _>(
                ErrorView::CryptoError(
                    if detailed {
                        "Partial secret computation failed: "@ + "bad tweak"@
                    } else {
                        "bad tweak"@
                    },
                ),
            );
            match input_sum(keys) {
                None => sender_secret(inputs, detailed) == failure,
                Some(sum) => {
                    let product = (sum * input_hash(sum, outpoints)) % curve_order();
                    sender_secret(inputs, detailed) == if product != 0 {
                        Ok::<_, ErrorView>(product)
                    } else {
                        failure
                    }
                },
            }
        },
        inputs_parts(inputs, detailed) matches Err(e) ==> sender_secret(inputs, detailed) == Err::<
            nat,
            _,
        >(e),
{
}

/// The tweak data is the text of the generator times the secret of the sender.
pub proof fn law_tweak_data_text(inputs: Seq<InputView>)
    ensures
        inputs.len() == 0 ==> tweak_data_of(inputs) == Err::<Seq<char>, _>(
            ErrorView::InvalidKey("inputs must not be empty"@),
        ),
        inputs.len() > 0 ==> match sender_secret(inputs, false) {
            Ok(secret) => tweak_data_of(inputs) == Ok::<_, ErrorView>(
                hex_text(compressed_point(secret)),
            ),
            Err(e) => tweak_data_of(inputs) == Err::<Seq<char>, _>(e),
        },
{
}

/// The addresses that have the given scan key.
pub open spec fn with_scan(addresses: Seq<Seq<char>>, scan: Seq<u8>) -> Seq<Seq<char>> {
    addresses.filter(|address: Seq<char>| address_keys(address) matches Ok(keys) && keys.0 == scan)
}

/// How many of the addresses before `j` have the given scan key.
pub open spec fn number_at(addresses: Seq<Seq<char>>, j: int, scan: Seq<u8>) -> nat {
    with_scan(addresses.take(j), scan).len()
}

/// The counter of a scan key is the number of addresses that have it.
proof fn lemma_number(addresses: Seq<Seq<char>>, scan: Seq<u8>)
    ensures
        same_scan(addresses, scan) == with_scan(addresses, scan).len(),
    decreases addresses.len(),
{
    reveal(Seq::filter);
    if addresses.len() > 0 {
        lemma_number(addresses.drop_last(), scan);
    }
}

/// The sum that, times the generator, is the key of the output to the address at `j`.
pub open spec fn output_sum(secret: nat, addresses: Seq<Seq<char>>, j: int) -> nat {
    let (scan, spend) = address_keys(addresses[j])->Ok_0;
    let shared = compressed_point((secret * point_log(scan)) % curve_order());
    (point_log(spend) + output_tweak(shared, number_at(addresses, j, scan))) % curve_order()
}

/// The tweak of the output to the address at `j`.
pub open spec fn tweak_at(secret: nat, addresses: Seq<Seq<char>>, j: int) -> nat {
    let scan = address_keys(addresses[j])->Ok_0.0;
    let shared = compressed_point((secret * point_log(scan)) % curve_order());
    output_tweak(shared, number_at(addresses, j, scan))
}

/// Whether the address at `j` can be paid to.
pub open spec fn is_payable(secret: nat, addresses: Seq<Seq<char>>, j: int) -> bool {
    &&& address_keys(addresses[j]) is Ok
    &&& 0 < tweak_at(secret, addresses, j) < curve_order()
    &&& output_sum(secret, addresses, j) != 0
}

/// What is made for the address at `j`.
proof fn lemma_output(secret: nat, addresses: Seq<Seq<char>>, j: int)
    requires
        0 <= j < addresses.len(),
    ensures
        sent_output(secret, addresses.take(j), addresses[j]) is Ok <==> is_payable(
            secret,
            addresses,
            j,
        ),
        is_payable(secret, addresses, j) ==> sent_output(secret, addresses.take(j), addresses[j])
            == Ok::<_, ErrorView>(
            OutputView {
                pubkey_hex: hex_text(compressed_point(output_sum(secret, addresses, j))),
                recipient_address: addresses[j],
            },
        ),
        address_keys(addresses[j]) matches Err(e) ==> sent_output(
            secret,
            addresses.take(j),
            addresses[j],
        ) == Err::<OutputView, _>(e),
        address_keys(addresses[j]) is Ok && !(0 < tweak_at(secret, addresses, j) < curve_order())
            ==> sent_output(secret, addresses.take(j), addresses[j]) == Err::<OutputView, _>(
            ErrorView::CryptoError("malformed or out-of-range secret key"@),
        ),
        address_keys(addresses[j]) is Ok && 0 < tweak_at(secret, addresses, j) < curve_order()
            && output_sum(secret, addresses, j) == 0 ==> sent_output(
            secret,
            addresses.take(j),
            addresses[j],
        ) == Err::<OutputView, _>(ErrorView::CryptoError("bad tweak"@)),
{
    if let Ok((scan, spend)) = address_keys(addresses[j]) {
        lemma_number(addresses.take(j), scan);
        assert(secret * point_log(scan) == point_log(scan) * secret) by (nonlinear_arith);
    }
}

/// The outputs of a transaction are made one for each address, in order. The output to the address
/// with the keys `scan` and `spend` is the spend key plus the generator times the tweak under the
/// number of addresses before it that have the same scan key: 0, 1, 2 and so on. The tweak is that of
/// the point that the sender's secret shares with the scan key.
pub proof fn law_outputs(
    inputs: Seq<InputView>,
    addresses: Seq<Seq<char>>,
    secret: nat,
    outputs: Seq<OutputView>,
    j: int,
)
    requires
        sender_secret(inputs, true) == Ok::<_, ErrorView>(secret),
        outputs_of(inputs, addresses) == Ok::<_, ErrorView>(outputs),
        0 <= j < addresses.len(),
    ensures
        outputs.len() == addresses.len(),
        outputs[j].recipient_address == addresses[j],
        address_keys(addresses[j]) matches Ok((scan, spend)) && {
            let number = with_scan(addresses.take(j), scan).len();
            let shared = compressed_point((secret * point_log(scan)) % curve_order());
            let tweak = output_tweak(shared, number);
            &&& 0 < tweak < curve_order()
            &&& outputs[j].pubkey_hex == hex_text(
                compressed_point((point_log(spend) + tweak) % curve_order()),
            )
        },
{
    law_outputs_in_order(secret, addresses, j);
    lemma_output(secret, addresses, j);
}

/// Outputs are made if there are inputs with a secret, and addresses that can all be paid to.
pub proof fn law_outputs_exist(inputs: Seq<InputView>, addresses: Seq<Seq<char>>, secret: nat)
    requires
        inputs.len() > 0,
        addresses.len() > 0,
        sender_secret(inputs, true) == Ok::<_, ErrorView>(secret),
        forall|j: int| 0 <= j < addresses.len() ==> #[trigger] is_payable(secret, addresses, j),
    ensures
        outputs_of(inputs, addresses) is Ok,
{
    lemma_paid(secret, addresses, addresses.len() as int);
    assert(addresses.take(addresses.len() as int) =~= addresses);
}

/// The first addresses have outputs if they can be paid to.
proof fn lemma_paid(secret: nat, addresses: Seq<Seq<char>>, n: int)
    requires
        0 <= n <= addresses.len(),
        forall|j: int| 0 <= j < n ==> #[trigger] is_payable(secret, addresses, j),
    ensures
        sent_outputs(secret, addresses.take(n)) is Ok,
    decreases n,
{
    if n > 0 {
        lemma_paid(secret, addresses, n - 1);
        assert(addresses.take(n).drop_last() =~= addresses.take(n - 1));
        assert(is_payable(secret, addresses, n - 1));
        lemma_output(secret, addresses, n - 1);
    }
}

/// If an address cannot be paid to, what is said of the first such address is said of all: why it is
/// no address, that its tweak is no secret key, or that its sum is zero.
pub proof fn law_outputs_failure(
    inputs: Seq<InputView>,
    addresses: Seq<Seq<char>>,
    secret: nat,
    j: int,
)
    requires
        inputs.len() > 0,
        sender_secret(inputs, true) == Ok::<_, ErrorView>(secret),
        0 <= j < addresses.len(),
        !is_payable(secret, addresses, j),
        forall|i: int| 0 <= i < j ==> #[trigger] is_payable(secret, addresses, i),
    ensures
        outputs_of(inputs, addresses) == Err::<Seq<OutputView>, _>(
            match address_keys(addresses[j]) {
                Err(e) => e,
                Ok(_) => ErrorView::CryptoError(
                    if 0 < tweak_at(secret, addresses, j) < curve_order() {
                        "bad tweak"@
                    } else {
                        "malformed or out-of-range secret key"@
                    },
                ),
            },
        ),
{
    lemma_paid(secret, addresses, j);
    lemma_output(secret, addresses, j);
    assert(addresses.take(j + 1).drop_last() =~= addresses.take(j));
    lemma_sent_outputs_error(secret, addresses, j + 1);
}

/// Outputs are refused without inputs, without addresses, and if the inputs have no secret, in that
/// order.
pub proof fn law_outputs_refusal(inputs: Seq<InputView>, addresses: Seq<Seq<char>>)
    ensures
        inputs.len() == 0 ==> outputs_of(inputs, addresses) == Err::<Seq<OutputView>, _>(
            ErrorView::InvalidKey("At least one input private key is required"@),
        ),
        inputs.len() > 0 && addresses.len() == 0 ==> outputs_of(inputs, addresses) == Err::<
            Seq<OutputView>,
            _,
        >(ErrorView::InvalidAddress("At least one recipient is required"@)),
        inputs.len() > 0 && addresses.len() > 0 ==> (sender_secret(inputs, true) matches Err(e)
            ==> outputs_of(inputs, addresses) == Err::<Seq<OutputView>, _>(e)),
{
}

/// The computation can be asked for unless the input hash is beyond the order of the curve.
pub proof fn law_input_range(
    inputs: Seq<InputView>,
    keys: Seq<(nat, bool)>,
    outpoints: Seq<Seq<u8>>,
)
    ensures
        inputs_parts(inputs, true) is Err ==> inputs_in_range(inputs),
        inputs_parts(inputs, true) == Ok::<_, ErrorView>((keys, outpoints)) ==> (inputs_in_range(
            inputs,
        ) <==> !(input_sum(keys) matches Some(sum) && input_hash(sum, outpoints)
            >= curve_order())),
{
}

/// Outputs can be asked for unless the input hash is beyond the order of the curve, or more than
/// four billion payable addresses have one scan key.
pub proof fn law_can_create(inputs: Seq<InputView>, addresses: Seq<Seq<char>>)
    ensures
        inputs.len() == 0 || addresses.len() == 0 ==> can_create(inputs, addresses),
        inputs_in_range(inputs) && addresses.len() <= u32::MAX ==> can_create(inputs, addresses),
        inputs_in_range(inputs) && sender_secret(inputs, true) is Err ==> can_create(
            inputs,
            addresses,
        ),
        inputs.len() > 0 && addresses.len() > 0 && !inputs_in_range(inputs) ==> !can_create(
            inputs,
            addresses,
        ),
{
    assert forall|secret: nat, i: int|
        0 <= i < addresses.len() <= u32::MAX implies #[trigger] can_count(secret, addresses, i) by {
        if let Ok((scan, _)) = address_keys(addresses[i]) {
            lemma_same_scan_bound(addresses.take(i), scan);
        }
    }
}

/// Whether the address at `j` is countable: unless one before it cannot be paid to, fewer addresses
/// before it have its scan key than a counter can hold.
pub open spec fn is_countable(secret: nat, addresses: Seq<Seq<char>>, j: int) -> bool {
    (forall|i: int| 0 <= i < j ==> #[trigger] is_payable(secret, addresses, i)) ==> (address_keys(
        addresses[j],
    ) matches Ok(keys) ==> number_at(addresses, j, keys.0) < u32::MAX)
}

/// Addresses can be counted if each of them is countable.
pub proof fn law_counts_fit(secret: nat, addresses: Seq<Seq<char>>)
    ensures
        counts_fit(secret, addresses) <==> forall|j: int|
            0 <= j < addresses.len() ==> #[trigger] is_countable(secret, addresses, j),
{
    assert forall|j: int| 0 <= j < addresses.len() implies #[trigger] can_count(
        secret,
        addresses,
        j,
    ) == is_countable(secret, addresses, j) by {
        lemma_countable(secret, addresses, j);
    }
    if counts_fit(secret, addresses) {
        assert forall|j: int| 0 <= j < addresses.len() implies #[trigger] is_countable(
            secret,
            addresses,
            j,
        ) by {
            assert(can_count(secret, addresses, j));
        }
    }
    if forall|j: int| 0 <= j < addresses.len() ==> #[trigger] is_countable(secret, addresses, j) {
        assert forall|j: int| 0 <= j < addresses.len() implies #[trigger] can_count(
            secret,
            addresses,
            j,
        ) by {
            assert(is_countable(secret, addresses, j));
        }
    }
}

/// An address can be counted if it is countable.
proof fn lemma_countable(secret: nat, addresses: Seq<Seq<char>>, j: int)
    requires
        0 <= j < addresses.len(),
    ensures
        can_count(secret, addresses, j) == is_countable(secret, addresses, j),
{
    if let Ok((scan, _)) = address_keys(addresses[j]) {
        lemma_number(addresses.take(j), scan);
    }
    if forall|i: int| 0 <= i < j ==> #[trigger] is_payable(secret, addresses, i) {
        lemma_paid(secret, addresses, j);
    } else {
        let i = choose|i: int| 0 <= i < j && !#[trigger] is_payable(secret, addresses, i);
        lemma_unpaid(secret, addresses, i, j);
    }
}

/// Addresses of which one cannot be paid to have no outputs.
proof fn lemma_unpaid(secret: nat, addresses: Seq<Seq<char>>, i: int, n: int)
    requires
        0 <= i < n <= addresses.len(),
        !is_payable(secret, addresses, i),
    ensures
        sent_outputs(secret, addresses.take(n)) is Err,
    decreases n,
{
    assert(addresses.take(n).drop_last() =~= addresses.take(n - 1));
    if i < n - 1 {
        lemma_unpaid(secret, addresses, i, n - 1);
    } else {
        lemma_output(secret, addresses, i);
    }
}

} // verus!
