//! The protocol step by step, in terms of digests, points and sums alone.

use crate::address::address_keys;
use crate::bip352::{
    bytes_33, is_first_match, is_listed_as, label_tweak, lemma_first_match, output_tweak,
    point_from_hex, shared_point, texts,
};
use crate::bytes::be_bytes;
use crate::curve::{compressed_point, curve_order, point_log};
use crate::error::{meets, ErrorView, SilentPaymentError};
use crate::hash::{sha256, tagged_hash};
use crate::keys::ExtendedKeyView;
use crate::laws::deriving::law_bip352_path;
use crate::laws::finding::{
    found_at, found_in_step, has_all_keys, has_key, has_label_key, law_first_match,
    law_plain_scan_result, law_scan_result, law_scan_without_outcome,
};
use crate::laws::paying::{
    is_payable, law_key_sum, law_outputs, law_outputs_exist, number_at, total,
};
use crate::laws::scanning::{
    is_found_at, labeled_output_log, law_no_labels, lemma_labeled_scan,
};
use crate::laws::sending::{has_hit, is_hit, lemma_scan_reaches};
use crate::network::Network;
use crate::payment::{FoundPaymentView, InputView, OutputView};
use crate::recipient::RecipientView;
use crate::scanner::ScannerView;
use crate::send::{input_sum, outputs_of, sender_secret};
use crate::text::{hex_bytes, hex_error, hex_text};
use vstd::arithmetic::div_mod::lemma_add_mod_noop_right;
use vstd::prelude::*;
use vstd::utf8::encode_utf8;

verus! {

/// A result is what a model says if and only if both have a value, and the value has that model, or
/// both have an error, and the error has that model.
pub proof fn law_meets<T: View>(value: T, error: SilentPaymentError, v: T::V, e: ErrorView)
    ensures
        meets::<T>(Ok(value), Ok(v)) <==> value@ == v,
        meets::<T>(Err(error), Err(e)) <==> error@ == e,
        !meets::<T>(Ok(value), Err(e)),
        !meets::<T>(Err(error), Ok(v)),
{
}

/// The models of texts keep every text, in order.
pub proof fn law_texts(strings: Seq<String>, i: int)
    ensures
        texts(strings).len() == strings.len(),
        0 <= i < strings.len() ==> texts(strings)[i] == strings[i]@,
{
}

/// The tagged hash of a message is the digest of the tag's digest, twice, and of the message.
pub proof fn law_tagged_hash(tag: Seq<char>, message: Seq<u8>)
    ensures
        tagged_hash(tag, message) == sha256(
            sha256(encode_utf8(tag)) + sha256(encode_utf8(tag)) + message,
        ),
{
}

/// 33 bytes are read from text that stands for 33 bytes, and from no other.
pub proof fn law_33_bytes_reading(s: Seq<char>)
    ensures
        match hex_bytes(encode_utf8(s)) {
            Some(bytes) => bytes_33(s) == if bytes.len() == 33 {
                Ok::<_, ErrorView>(bytes)
            } else {
                Err(
                    ErrorView::EncodingError("Expected 33 bytes (66 hex chars), got: "@ + s),
                )
            },
            None => bytes_33(s) == Err::<Seq<u8>, _>(
                ErrorView::EncodingError(hex_error(encode_utf8(s))),
            ),
        },
{
}

/// The point that a secret and the point with a given logarithm share is the generator times their
/// product.
pub proof fn law_shared_point(secret: nat, log: nat)
    ensures
        shared_point(secret, log) == compressed_point((secret * log) % curve_order()),
{
    assert(secret * log == log * secret) by (nonlinear_arith);
}

/// The scan public key of a scanner is the generator times its scan secret.
pub proof fn law_scanner_key(scanner: ScannerView)
    ensures
        scanner.scan_public() == compressed_point(scanner.scan),
        scanner.spend() == point_log(scanner.spend_public),
{
}

/// The key sum, by the totals of the first keys: each total is the one before it plus the key, or plus
/// the order of the curve minus the key if it is a taproot key whose point begins with 3. The sum is
/// the last total modulo the order, and exists if no total after the first is a multiple of it.
pub proof fn law_key_totals(keys: Seq<(nat, bool)>, totals: Seq<int>)
    requires
        forall|i: int| 0 <= i < keys.len() ==> 0 < (#[trigger] keys[i]).0 < curve_order(),
        totals.len() == keys.len() + 1,
        totals[0] == 0,
        forall|i: int|
            0 <= i < keys.len() ==> #[trigger] totals[i + 1] == totals[i] + (if keys[i].1
                && compressed_point(keys[i].0)[0] == 3 {
                curve_order() - keys[i].0
            } else {
                keys[i].0 as int
            }),
    ensures
        input_sum(keys) is Some <==> keys.len() > 0 && forall|j: int|
            0 < j <= keys.len() ==> #[trigger] totals[j] % (curve_order() as int) != 0,
        input_sum(keys) matches Some(sum) ==> sum == totals[keys.len() as int] % (
        curve_order() as int),
{
    law_key_sum(keys);
    assert forall|j: int| 0 <= j <= keys.len() implies #[trigger] total(keys.take(j)) == totals[j] by {
        lemma_total(keys, totals, j);
    }
    assert(keys.take(keys.len() as int) =~= keys);
    assert(total(keys.take(keys.len() as int)) == totals[keys.len() as int]);
    if forall|j: int|
        0 < j <= keys.len() ==> #[trigger] totals[j] % (curve_order() as int) != 0 {
        assert forall|j: int| 0 < j <= keys.len() implies total(#[trigger] keys.take(j)) % (
        curve_order() as int) != 0 by {
            assert(total(keys.take(j)) == totals[j]);
        }
    }
    if forall|j: int|
        0 < j <= keys.len() ==> total(#[trigger] keys.take(j)) % (curve_order() as int) != 0 {
        assert forall|j: int| 0 < j <= keys.len() implies #[trigger] totals[j] % (
        curve_order() as int) != 0 by {
            assert(total(keys.take(j)) == totals[j]);
        }
    }
}

/// The totals of the first keys.
proof fn lemma_total(keys: Seq<(nat, bool)>, totals: Seq<int>, j: int)
    requires
        totals.len() == keys.len() + 1,
        totals[0] == 0,
        forall|i: int|
            0 <= i < keys.len() ==> #[trigger] totals[i + 1] == totals[i] + (if keys[i].1
                && compressed_point(keys[i].0)[0] == 3 {
                curve_order() - keys[i].0
            } else {
                keys[i].0 as int
            }),
        0 <= j <= keys.len(),
    ensures
        total(keys.take(j)) == totals[j],
    decreases j,
{
    if j > 0 {
        lemma_total(keys, totals, j - 1);
        assert(keys.take(j).drop_last() =~= keys.take(j - 1));
        assert(keys.take(j).last() == keys[j - 1]);
        assert(totals[(j - 1) + 1] == totals[j]);
    }
}

/// Whether an address has the given scan key.
pub open spec fn is_scanned_by(address: Seq<char>, scan: Seq<u8>) -> bool {
    address_keys(address) matches Ok(keys) && keys.0 == scan
}

/// Whether no address between `i` and `j` has the given scan key.
pub open spec fn none_between(addresses: Seq<Seq<char>>, i: int, j: int, scan: Seq<u8>) -> bool {
    forall|x: int| i < x < j ==> !is_scanned_by(#[trigger] addresses[x], scan)
}

/// Whether `numbers` are the numbers of addresses: an address whose scan key does not occur before it
/// has the number 0, and the next address with the same scan key as another has the next number.
pub open spec fn are_numbers(addresses: Seq<Seq<char>>, numbers: Seq<nat>) -> bool {
    &&& numbers.len() == addresses.len()
    &&& forall|j: int, scan: Seq<u8>|
        0 <= j < addresses.len() && is_scanned_by(addresses[j], scan) && #[trigger] none_between(
            addresses,
            -1,
            j,
            scan,
        ) ==> numbers[j] == 0
    &&& forall|i: int, j: int, scan: Seq<u8>|
        0 <= i < j < addresses.len() && is_scanned_by(addresses[i], scan) && is_scanned_by(
            addresses[j],
            scan,
        ) && #[trigger] none_between(addresses, i, j, scan) ==> numbers[j] == numbers[i] + 1
}

/// The numbers are how many addresses before have the same scan key.
proof fn lemma_numbers(addresses: Seq<Seq<char>>, numbers: Seq<nat>, j: int)
    requires
        are_numbers(addresses, numbers),
        0 <= j < addresses.len(),
        address_keys(addresses[j]) is Ok,
    ensures
        numbers[j] == number_at(addresses, j, address_keys(addresses[j])->Ok_0.0),
    decreases j,
{
    let scan = address_keys(addresses[j])->Ok_0.0;
    assert(none_between(addresses, j - 1, j, scan));
    lemma_last_with_scan(addresses, numbers, scan, j, j);
}

/// Going back from an address: the number of the last address with the scan key, plus one, is how
/// many have it.
proof fn lemma_last_with_scan(
    addresses: Seq<Seq<char>>,
    numbers: Seq<nat>,
    scan: Seq<u8>,
    j: int,
    end: int,
)
    requires
        are_numbers(addresses, numbers),
        0 <= end <= j < addresses.len(),
        is_scanned_by(addresses[j], scan),
        none_between(addresses, end - 1, j, scan),
    ensures
        numbers[j] == number_at(addresses, end, scan),
    decreases j, end,
{
    lemma_number_step(addresses, end, scan);
    if end > 0 {
        if is_scanned_by(addresses[end - 1], scan) {
            assert(none_between(addresses, end - 2, end - 1, scan));
            lemma_last_with_scan(addresses, numbers, scan, end - 1, end - 1);
            assert(numbers[j] == numbers[end - 1] + 1);
        } else {
            assert(none_between(addresses, end - 2, j, scan));
            lemma_last_with_scan(addresses, numbers, scan, j, end - 1);
        }
    }
}

/// How many addresses have a scan key, one address further.
proof fn lemma_number_step(addresses: Seq<Seq<char>>, end: int, scan: Seq<u8>)
    requires
        0 <= end <= addresses.len(),
    ensures
        end == 0 ==> number_at(addresses, end, scan) == 0,
        end > 0 ==> number_at(addresses, end, scan) == number_at(addresses, end - 1, scan) + (
        if address_keys(addresses[end - 1]) matches Ok(keys) && keys.0 == scan {
            1nat
        } else {
            0nat
        }),
{
    reveal(Seq::filter);
    if end > 0 {
        let front = addresses.take(end);
        assert(front.drop_last() =~= addresses.take(end - 1));
        assert(front.last() == addresses[end - 1]);
    }
}

/// What is paid, output by output. The output to the address at `j` is the spend key of the address
/// plus the generator times a tweak: that of the point which the secret shares with the scan key of
/// the address, under the number of the address. Numbers count 0, 1, 2 and so on for each scan key.
pub proof fn law_payment_to_address(
    inputs: Seq<InputView>,
    addresses: Seq<Seq<char>>,
    numbers: Seq<nat>,
    secret: nat,
    outputs: Seq<OutputView>,
    j: int,
)
    requires
        are_numbers(addresses, numbers),
        sender_secret(inputs, true) == Ok::<_, ErrorView>(secret),
        outputs_of(inputs, addresses) == Ok::<_, ErrorView>(outputs),
        0 <= j < addresses.len(),
    ensures
        outputs.len() == addresses.len(),
        outputs[j].recipient_address == addresses[j],
        address_keys(addresses[j]) matches Ok((scan, spend)) && outputs[j].pubkey_hex == hex_text(
            compressed_point(
                (point_log(spend) + output_tweak(
                    compressed_point((secret * point_log(scan)) % curve_order()),
                    numbers[j],
                )) % curve_order(),
            ),
        ),
{
    law_outputs(inputs, addresses, secret, outputs, j);
    lemma_numbers(addresses, numbers, j);
}

/// Payments succeed if every address is one, every tweak is a secret key, and no sum is zero.
pub proof fn law_payment_succeeds(
    inputs: Seq<InputView>,
    addresses: Seq<Seq<char>>,
    numbers: Seq<nat>,
    secret: nat,
)
    requires
        are_numbers(addresses, numbers),
        inputs.len() > 0,
        addresses.len() > 0,
        sender_secret(inputs, true) == Ok::<_, ErrorView>(secret),
        forall|j: int|
            0 <= j < addresses.len() ==> (address_keys(#[trigger] addresses[j]) matches Ok(
                (scan, spend),
            ) && {
                let tweak = output_tweak(
                    compressed_point((secret * point_log(scan)) % curve_order()),
                    numbers[j],
                );
                0 < tweak < curve_order() && (point_log(spend) + tweak) % curve_order() != 0
            }),
    ensures
        outputs_of(inputs, addresses) is Ok,
{
    assert forall|j: int| 0 <= j < addresses.len() implies #[trigger] is_payable(
        secret,
        addresses,
        j,
    ) by {
        assert(address_keys(addresses[j]) is Ok);
        lemma_numbers(addresses, numbers, j);
    }
    law_outputs_exist(inputs, addresses, secret);
}

/// What a scan for the standard address returns, number by number. Under each number below `n` the
/// output at `indices[k]` is the first that lists the spend key plus the generator times the tweak of
/// that number, by its full or by its x-only key; under `n` none does. All tweaks are secret keys,
/// and no sum is zero.
pub proof fn law_plain_scan(
    scanner: ScannerView,
    senders: Seq<Seq<char>>,
    outputs: Seq<Seq<char>>,
    point: Seq<u8>,
    shared: Seq<u8>,
    indices: Seq<int>,
)
    requires
        senders.len() > 0,
        outputs.len() <= 0x1_0000_0000,
        point_from_hex(senders[0], "Invalid compressed pubkey: "@) == Ok::<_, ErrorView>(point),
        shared == compressed_point((scanner.scan * point_log(point)) % curve_order()),
        indices.len() <= u32::MAX,
        forall|k: nat|
            k <= indices.len() ==> 0 < #[trigger] output_tweak(shared, k) < curve_order() && (
            point_log(scanner.spend_public) + output_tweak(shared, k)) % curve_order() != 0,
        forall|k: nat|
            k < indices.len() ==> {
                let key = compressed_point(
                    (point_log(scanner.spend_public) + #[trigger] output_tweak(shared, k))
                        % curve_order(),
                );
                let i = indices[k as int];
                &&& 0 <= i < outputs.len()
                &&& outputs[i] == hex_text(key) || outputs[i] == hex_text(key.skip(1))
                &&& forall|x: int|
                    0 <= x < i ==> #[trigger] outputs[x] != hex_text(key) && outputs[x] != hex_text(
                        key.skip(1),
                    )
            },
        ({
            let key = compressed_point(
                (point_log(scanner.spend_public) + output_tweak(shared, indices.len()))
                    % curve_order(),
            );
            forall|x: int|
                0 <= x < outputs.len() ==> #[trigger] outputs[x] != hex_text(key) && outputs[x]
                    != hex_text(key.skip(1))
        }),
    ensures
        scanner.scan_plain(senders, outputs) matches Some(Ok(found)) && {
            &&& found.len() == indices.len()
            &&& forall|k: int|
                0 <= k < found.len() ==> (#[trigger] found[k]) == (FoundPaymentView {
                    output_index: indices[k] as u32,
                    tweak_hex: hex_text(be_bytes(output_tweak(shared, k as nat), 32)),
                    amount_sats: 0,
                    label: None,
                })
        },
{
    let scan = scanner.scan;
    let spend = point_log(scanner.spend_public);
    let n = indices.len();
    assert forall|k: nat| k <= n implies #[trigger] has_key(spend, shared, k) by {
        assert(0 < output_tweak(shared, k) < curve_order());
    }
    assert forall|k: nat| k < n implies #[trigger] found_at(
        scan,
        spend,
        shared,
        outputs,
        k,
        None,
    ) == seq![
        FoundPaymentView {
            output_index: indices[k as int] as u32,
            tweak_hex: hex_text(be_bytes(output_tweak(shared, k), 32)),
            amount_sats: 0,
            label: None,
        },
    ] by {
        let key = compressed_point((spend + output_tweak(shared, k)) % curve_order());
        law_first_match(
            outputs,
            hex_text(key),
            hex_text(key.skip(1)),
            indices[k as int],
        );
    }
    let key = compressed_point((spend + output_tweak(shared, n)) % curve_order());
    law_first_match(outputs, hex_text(key), hex_text(key.skip(1)), 0);
    assert(found_at(scan, spend, shared, outputs, n, None).len() == 0);
    law_plain_scan_result(scanner, senders, outputs, point, n);
}

/// A scan does not fail, whatever the outputs are listed by, if the tweak data is the text of a point,
/// the numbers of the labels and the tweaks are secret keys, and no sum of the spend key, a tweak and
/// a label is zero. It has no outcome only if something is found under every number that a counter can
/// hold.
pub proof fn law_scan_succeeds(
    scanner: ScannerView,
    senders: Seq<Seq<char>>,
    outputs: Seq<Seq<char>>,
    labels: Seq<u32>,
    point: Seq<u8>,
    shared: Seq<u8>,
)
    requires
        senders.len() > 0,
        point_from_hex(senders[0], "Invalid compressed pubkey: "@) == Ok::<_, ErrorView>(point),
        shared == compressed_point((scanner.scan * point_log(point)) % curve_order()),
        forall|x: int|
            0 <= x < labels.len() ==> 0 < label_tweak(scanner.scan, #[trigger] labels[x] as nat)
                < curve_order(),
        forall|k: nat|
            k <= u32::MAX ==> 0 < #[trigger] output_tweak(shared, k) < curve_order() && (point_log(
                scanner.spend_public,
            ) + output_tweak(shared, k)) % curve_order() != 0,
        forall|k: nat, x: int|
            k <= u32::MAX && 0 <= x < labels.len() ==> (point_log(scanner.spend_public)
                + #[trigger] output_tweak(shared, k) + label_tweak(
                scanner.scan,
                #[trigger] labels[x] as nat,
            )) % curve_order() != 0,
    ensures
        !(scanner.scan_labeled(senders, outputs, labels) matches Some(Err(_))),
        !(scanner.scan_plain(senders, outputs) matches Some(Err(_))),
{
    let spend = point_log(scanner.spend_public);
    assert forall|k: nat| k <= u32::MAX implies #[trigger] has_all_keys(
        scanner.scan,
        spend,
        shared,
        labels,
        k,
    ) by {
        assert(0 < output_tweak(shared, k) < curve_order());
        assert forall|x: int| 0 <= x < labels.len() implies has_label_key(
            scanner.scan,
            spend,
            shared,
            k,
            #[trigger] labels[x],
        ) by {
            assert((spend + output_tweak(shared, k) + label_tweak(
                scanner.scan,
                labels[x] as nat,
            )) % curve_order() != 0);
        }
    }
    lemma_outcome(scanner, senders, outputs, labels, point, shared);
    let none = Seq::<u32>::empty();
    assert forall|k: nat| k <= u32::MAX implies #[trigger] has_all_keys(
        scanner.scan,
        spend,
        shared,
        none,
        k,
    ) by {
        assert(has_all_keys(scanner.scan, spend, shared, labels, k));
    }
    lemma_outcome(scanner, senders, outputs, none, point, shared);
    law_no_labels(scanner, senders, outputs);
}

/// A scan whose keys all exist does not fail.
proof fn lemma_outcome(
    scanner: ScannerView,
    senders: Seq<Seq<char>>,
    outputs: Seq<Seq<char>>,
    labels: Seq<u32>,
    point: Seq<u8>,
    shared: Seq<u8>,
)
    requires
        senders.len() > 0,
        point_from_hex(senders[0], "Invalid compressed pubkey: "@) == Ok::<_, ErrorView>(point),
        shared == compressed_point((scanner.scan * point_log(point)) % curve_order()),
        forall|x: int|
            0 <= x < labels.len() ==> 0 < label_tweak(scanner.scan, #[trigger] labels[x] as nat)
                < curve_order(),
        forall|k: nat|
            k <= u32::MAX ==> #[trigger] has_all_keys(
                scanner.scan,
                point_log(scanner.spend_public),
                shared,
                labels,
                k,
            ),
    ensures
        !(scanner.scan_labeled(senders, outputs, labels) matches Some(Err(_))),
{
    let spend = point_log(scanner.spend_public);
    if forall|k: nat|
        k <= u32::MAX ==> #[trigger] found_in_step(
            scanner.scan,
            spend,
            shared,
            outputs,
            labels,
            k,
        ).len() > 0 {
        assert forall|k: nat| k <= u32::MAX implies #[trigger] has_all_keys(
            scanner.scan,
            spend,
            shared,
            labels,
            k,
        ) && found_in_step(scanner.scan, spend, shared, outputs, labels, k).len() > 0 by {}
        law_scan_without_outcome(scanner, senders, outputs, labels, point);
    } else {
        let k = choose|k: nat|
            k <= u32::MAX && #[trigger] found_in_step(
                scanner.scan,
                spend,
                shared,
                outputs,
                labels,
                k,
            ).len() == 0;
        let n = lemma_first_empty(scanner.scan, spend, shared, outputs, labels, k);
        law_scan_result(scanner, senders, outputs, labels, point, n);
    }
}

/// There is a first number under which nothing is found, if there is one at all.
proof fn lemma_first_empty(
    scan: nat,
    spend: nat,
    shared: Seq<u8>,
    outputs: Seq<Seq<char>>,
    labels: Seq<u32>,
    k: nat,
) -> (n: nat)
    requires
        found_in_step(scan, spend, shared, outputs, labels, k).len() == 0,
    ensures
        n <= k,
        found_in_step(scan, spend, shared, outputs, labels, n).len() == 0,
        forall|j: nat|
            j < n ==> #[trigger] found_in_step(scan, spend, shared, outputs, labels, j).len() > 0,
    decreases k,
{
    if exists|j: nat|
        j < k && #[trigger] found_in_step(scan, spend, shared, outputs, labels, j).len() == 0 {
        let j = choose|j: nat|
            j < k && #[trigger] found_in_step(scan, spend, shared, outputs, labels, j).len() == 0;
        lemma_first_empty(scan, spend, shared, outputs, labels, j)
    } else {
        k
    }
}

/// The secrets that a key restores, for keys of any depth: the spend secret at the end of the path
/// with the branch 0, the scan secret at the end of that with the branch 1. The spend secret is
/// derived first; a path that goes too deep is refused.
pub proof fn law_restored_secrets(root: ExtendedKeyView, network: Network, account: u32)
    requires
        account < 0x8000_0000,
    ensures
        ({
            let coin: u32 = if network == Network::Bitcoin {
                0x8000_0000
            } else {
                0x8000_0001
            };
            let third = (0x8000_0000 + account) as u32;
            let spend = root.descendant(seq![0x8000_0160u32, coin, third, 0u32, 0u32]);
            let scan = root.descendant(seq![0x8000_0160u32, coin, third, 1u32, 0u32]);
            let secrets = root.bip352_secrets(network, account);
            match (spend, scan) {
                (None, _) => secrets is None,
                (Some(Err(text)), _) => secrets == Some(
                    Err::<(nat, nat), _>(
                        ErrorView::CryptoError("Key derivation failed: "@ + text),
                    ),
                ),
                (Some(Ok(_)), None) => secrets is None,
                (Some(Ok(_)), Some(Err(text))) => secrets == Some(
                    Err::<(nat, nat), _>(
                        ErrorView::CryptoError("Key derivation failed: "@ + text),
                    ),
                ),
                (Some(Ok(b)), Some(Ok(a))) => secrets == Some(
                    Ok::<_, ErrorView>((a.key, b.key)),
                ),
            }
        }),
{
    law_bip352_path(network, account, 0);
    law_bip352_path(network, account, 1);
}

/// The key that an output has under a number at an address: the spend key plus the generator times the
/// tweak of the number, and times the number of the label if there is one.
proof fn lemma_key_log(recipient: RecipientView, shared: Seq<u8>, k: nat, label: Option<u32>)
    ensures
        labeled_output_log(recipient, shared, k, label) == (recipient.spend + output_tweak(
            shared,
            k,
        ) + (match label {
            None => 0nat,
            Some(m) => label_tweak(recipient.scan, m as nat),
        })) % curve_order(),
{
    if let Some(m) = label {
        lemma_add_mod_noop_right(
            label_tweak(recipient.scan, m as nat) as int,
            (recipient.spend + output_tweak(shared, k)) as int,
            curve_order() as int,
        );
    }
}

/// Every payment that a scan finds is listed. It has the tweak of some number; its label, if it has
/// one, is among those asked for; and the output that it names is the first that lists, by its full or
/// by its x-only key, the spend key plus the generator times the tweak and the number of the label.
pub proof fn law_found_is_listed(
    scanner: ScannerView,
    senders: Seq<Seq<char>>,
    outputs: Seq<Seq<char>>,
    labels: Seq<u32>,
    point: Seq<u8>,
    shared: Seq<u8>,
    found: Seq<FoundPaymentView>,
    f: int,
) -> (k: nat)
    requires
        senders.len() > 0,
        outputs.len() <= 0x1_0000_0000,
        point_from_hex(senders[0], "Invalid compressed pubkey: "@) == Ok::<_, ErrorView>(point),
        shared == compressed_point((scanner.scan * point_log(point)) % curve_order()),
        scanner.scan_labeled(senders, outputs, labels) == Some(Ok::<_, ErrorView>(found)),
        0 <= f < found.len(),
    ensures
        found[f].tweak_hex == hex_text(be_bytes(output_tweak(shared, k), 32)),
        found[f].amount_sats == 0,
        found[f].label matches Some(m) ==> labels.contains(m),
        ({
            let key = compressed_point(
                (point_log(scanner.spend_public) + output_tweak(shared, k) + (
                match found[f].label {
                    None => 0nat,
                    Some(m) => label_tweak(scanner.scan, m as nat),
                })) % curve_order(),
            );
            let i = found[f].output_index as int;
            &&& i < outputs.len()
            &&& outputs[i] == hex_text(key) || outputs[i] == hex_text(key.skip(1))
            &&& forall|x: int|
                0 <= x < i ==> #[trigger] outputs[x] != hex_text(key) && outputs[x] != hex_text(
                    key.skip(1),
                )
        }),
{
    let spend = point_log(scanner.spend_public);
    let recipient = RecipientView { scan: scanner.scan, spend, network: Network::Bitcoin };
    law_shared_point(scanner.scan, point_log(point));
    lemma_labeled_scan(recipient, shared, outputs, labels, 0, found, f);
    let k = choose|k: nat| is_found_at(recipient, shared, outputs, labels, k, found[f]);
    assert(is_found_at(recipient, shared, outputs, labels, k, found[f]));
    lemma_key_log(recipient, shared, k, found[f].label);
    let log = labeled_output_log(recipient, shared, k, found[f].label);
    let full = hex_text(compressed_point(log));
    let xonly = hex_text(compressed_point(log).skip(1));
    let i = choose|i: int| is_first_match(outputs, full, xonly, i);
    assert(is_first_match(outputs, full, xonly, i));
    assert(i as u32 == i);
    assert forall|x: int| 0 <= x < i implies #[trigger] outputs[x] != full && outputs[x] != xonly by {
        assert(!is_listed_as(outputs[x], full, xonly));
    }
    k
}

/// Every payment that is listed is found. If under each number up to `k` the transaction lists, at the
/// address `reach[j].0` and as the output `reach[j].1`, the key which the recipient has there, then the
/// scan returns the payment under `k`: at the first output that lists its key, with its tweak and its
/// label.
pub proof fn law_listed_is_found(
    scanner: ScannerView,
    senders: Seq<Seq<char>>,
    outputs: Seq<Seq<char>>,
    labels: Seq<u32>,
    point: Seq<u8>,
    shared: Seq<u8>,
    found: Seq<FoundPaymentView>,
    reach: Seq<(Option<u32>, int)>,
    k: nat,
)
    requires
        senders.len() > 0,
        outputs.len() <= 0x1_0000_0000,
        point_from_hex(senders[0], "Invalid compressed pubkey: "@) == Ok::<_, ErrorView>(point),
        shared == compressed_point((scanner.scan * point_log(point)) % curve_order()),
        scanner.scan_labeled(senders, outputs, labels) == Some(Ok::<_, ErrorView>(found)),
        reach.len() == k + 1,
        forall|j: int|
            0 <= j <= k ==> {
                let (label, i) = #[trigger] reach[j];
                let key = compressed_point(
                    (point_log(scanner.spend_public) + output_tweak(shared, j as nat) + (
                    match label {
                        None => 0nat,
                        Some(m) => label_tweak(scanner.scan, m as nat),
                    })) % curve_order(),
                );
                &&& label matches Some(m) ==> labels.contains(m)
                &&& 0 <= i < outputs.len()
                &&& outputs[i] == hex_text(key) || outputs[i] == hex_text(key.skip(1))
            },
        ({
            let (label, i) = reach[k as int];
            let key = compressed_point(
                (point_log(scanner.spend_public) + output_tweak(shared, k) + (match label {
                    None => 0nat,
                    Some(m) => label_tweak(scanner.scan, m as nat),
                })) % curve_order(),
            );
            forall|x: int|
                0 <= x < i ==> #[trigger] outputs[x] != hex_text(key) && outputs[x] != hex_text(
                    key.skip(1),
                )
        }),
    ensures
        found.contains(
            FoundPaymentView {
                output_index: reach[k as int].1 as u32,
                tweak_hex: hex_text(be_bytes(output_tweak(shared, k), 32)),
                amount_sats: 0,
                label: reach[k as int].0,
            },
        ),
{
    let spend = point_log(scanner.spend_public);
    let recipient = RecipientView { scan: scanner.scan, spend, network: Network::Bitcoin };
    law_shared_point(scanner.scan, point_log(point));
    assert forall|j: nat| j <= k implies #[trigger] is_hit(
        recipient,
        shared,
        outputs,
        labels,
        j,
        reach[j as int].0,
    ) by {
        let (label, i) = reach[j as int];
        lemma_key_log(recipient, shared, j, label);
        let log = labeled_output_log(recipient, shared, j, label);
        lemma_first_match(
            outputs,
            hex_text(compressed_point(log)),
            hex_text(compressed_point(log).skip(1)),
            i,
        );
    }
    assert forall|j: nat| j < k implies #[trigger] has_hit(
        recipient,
        shared,
        outputs,
        labels,
        j,
    ) by {
        assert(is_hit(recipient, shared, outputs, labels, j, reach[j as int].0));
    }
    let (label, i) = reach[k as int];
    assert(is_hit(recipient, shared, outputs, labels, k, label));
    lemma_key_log(recipient, shared, k, label);
    let log = labeled_output_log(recipient, shared, k, label);
    law_first_match(
        outputs,
        hex_text(compressed_point(log)),
        hex_text(compressed_point(log).skip(1)),
        i,
    );
    lemma_scan_reaches(recipient, shared, outputs, labels, 0, k, label, found);
}

} // verus!
