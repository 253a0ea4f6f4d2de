//! What is sent, and that it is found.

use crate::address::address_keys;
use crate::bip352::{
    is_listed_as, label_tweak, lemma_first_match, match_point, output_error, output_tweak,
    point_from_hex, secret_from_hex, shared_point,
};
use crate::bytes::{be_nat, lemma_be_bytes_len, lemma_be_nat_injective};
use crate::curve::{
    compressed_point, curve_order, is_point, is_secret, lemma_log_of_point, point_log,
};
use crate::error::ErrorView;
use crate::laws::round_trip::{law_hex_round_trip, law_scanner_of_recipient, scanner_of};
use crate::laws::scanning::{
    labeled_output_log, law_no_labels, law_payment_is_spendable, lemma_add_mod_swap,
};
use crate::payment::{FoundPaymentView, InputView, OutputView};
use crate::recipient::RecipientView;
use crate::scanner::{labeled_payments, labeled_scan, payment_at, unlabeled_payment};
use crate::send::{
    has_scan, input_hash, input_number, input_parts, input_sum, inputs_parts, is_smallest,
    lemma_inputs_parts, lemma_inputs_parts_len, outputs_of, same_scan, sender_secret, sent_output,
    sent_outputs, smallest, tweak_data_of,
};
use crate::text::hex_text;
use vstd::arithmetic::div_mod::{lemma_add_mod_noop_right, lemma_mod_twice, lemma_small_mod};
use vstd::prelude::*;
use vstd::seq_lib::{commutative_foldl, lemma_fold_left_permutation, to_multiset_contains};

verus! {

/// Sender and recipient share a point: the sender's secret times the scan key is the scan secret
/// times the tweak data.
pub proof fn law_shared_point_agrees(scan: nat, secret: nat)
    requires
        is_secret(scan),
        is_secret(secret),
        is_point(compressed_point(scan)),
        is_point(compressed_point(secret)),
    ensures
        shared_point(secret, point_log(compressed_point(scan))) == shared_point(
            scan,
            point_log(compressed_point(secret)),
        ),
{
    lemma_log_of_point(scan);
    lemma_log_of_point(secret);
    assert(scan * secret == secret * scan) by (nonlinear_arith);
}

/// Each address gets its output, in order.
pub proof fn law_outputs_in_order(secret: nat, addresses: Seq<Seq<char>>, j: int)
    requires
        sent_outputs(secret, addresses) is Ok,
        0 <= j < addresses.len(),
    ensures
        sent_outputs(secret, addresses)->Ok_0.len() == addresses.len(),
        sent_output(secret, addresses.take(j), addresses[j]) == Ok::<_, ErrorView>(
            sent_outputs(secret, addresses)->Ok_0[j],
        ),
    decreases addresses.len(),
{
    let shorter = addresses.drop_last();
    if j < shorter.len() {
        law_outputs_in_order(secret, shorter, j);
        assert(shorter.take(j) =~= addresses.take(j));
    } else {
        assert(addresses.take(j) =~= shorter);
        if shorter.len() > 0 {
            law_outputs_in_order(secret, shorter, 0);
        }
    }
}

/// Payments to one scan key in one transaction are told apart: a later one has a greater number.
pub proof fn law_numbers_grow(addresses: Seq<Seq<char>>, scan: Seq<u8>, i: int, j: int)
    requires
        0 <= i < j < addresses.len(),
        has_scan(addresses[i], scan),
    ensures
        same_scan(addresses.take(i), scan) < same_scan(addresses.take(j), scan),
    decreases j,
{
    assert(addresses.take(j).drop_last() =~= addresses.take(j - 1));
    assert(addresses.take(j).last() == addresses[j - 1]);
    if i < j - 1 {
        law_numbers_grow(addresses, scan, i, j - 1);
    }
}

/// Payments to one scan key in one transaction are numbered without gaps, from zero on.
pub proof fn law_numbers_have_no_gaps(addresses: Seq<Seq<char>>, scan: Seq<u8>, k: nat) -> (j: int)
    requires
        k < same_scan(addresses, scan),
    ensures
        0 <= j < addresses.len(),
        has_scan(addresses[j], scan),
        same_scan(addresses.take(j), scan) == k,
    decreases addresses.len(),
{
    let shorter = addresses.drop_last();
    if k < same_scan(shorter, scan) {
        let j = law_numbers_have_no_gaps(shorter, scan, k);
        assert(shorter.take(j) =~= addresses.take(j));
        j
    } else {
        let j = addresses.len() - 1;
        assert(addresses.take(j) =~= shorter);
        j
    }
}

/// The keys of inputs are secret keys.
proof fn lemma_input_keys(inputs: Seq<InputView>, detailed: bool, i: int)
    requires
        inputs_parts(inputs, detailed) is Ok,
        0 <= i < inputs_parts(inputs, detailed)->Ok_0.0.len(),
    ensures
        is_secret(inputs_parts(inputs, detailed)->Ok_0.0[i].0),
    decreases inputs.len(),
{
    let shorter = inputs.drop_last();
    if i < inputs_parts(shorter, detailed)->Ok_0.0.len() {
        lemma_input_keys(shorter, detailed, i);
    }
}

/// The key sum of some inputs is a secret key.
proof fn lemma_sum_is_secret(inputs: Seq<InputView>)
    requires
        inputs_parts(inputs, false) is Ok,
        input_sum(inputs_parts(inputs, false)->Ok_0.0) is Some,
    ensures
        is_secret(input_sum(inputs_parts(inputs, false)->Ok_0.0).unwrap()),
{
    let keys = inputs_parts(inputs, false)->Ok_0.0;
    lemma_input_keys(inputs, false, keys.len() - 1);
}

/// The tweak data of a transaction is the input hash times the point of the key sum.
pub proof fn law_tweak_data(inputs: Seq<InputView>)
    requires
        tweak_data_of(inputs) is Ok,
        is_point(compressed_point(input_sum(inputs_parts(inputs, false)->Ok_0.0).unwrap())),
    ensures
        ({
            let (keys, outpoints) = inputs_parts(inputs, false)->Ok_0;
            let sum = input_sum(keys).unwrap();
            tweak_data_of(inputs)->Ok_0 == hex_text(
                shared_point(input_hash(sum, outpoints), point_log(compressed_point(sum))),
            )
        }),
{
    lemma_sum_is_secret(inputs);
    lemma_log_of_point(input_sum(inputs_parts(inputs, false)->Ok_0.0).unwrap());
}

/// Whoever may create the outputs of a transaction may compute its tweak data, from the same secret.
pub proof fn law_tweak_data_of_sender(inputs: Seq<InputView>, addresses: Seq<Seq<char>>)
    requires
        outputs_of(inputs, addresses) is Ok,
    ensures
        sender_secret(inputs, true) is Ok,
        is_secret(sender_secret(inputs, true)->Ok_0),
        outputs_of(inputs, addresses) == sent_outputs(
            sender_secret(inputs, true)->Ok_0,
            addresses,
        ),
        tweak_data_of(inputs) == Ok::<_, ErrorView>(
            hex_text(compressed_point(sender_secret(inputs, true)->Ok_0)),
        ),
{
    lemma_inputs_parts(inputs);
}

/// Whether an address is the one of a recipient for a label, or the standard one for no label.
pub open spec fn is_own_address(
    recipient: RecipientView,
    labels: Seq<u32>,
    address: Seq<char>,
    label: Option<u32>,
) -> bool {
    match label {
        None => address_keys(address) == Ok::<_, ErrorView>(
            (recipient.scan_public(), recipient.spend_public()),
        ),
        Some(m) => {
            &&& labels.contains(m)
            &&& recipient.labeled_address(m as nat) is Ok
            &&& is_point(compressed_point(recipient.labeled_spend(m as nat)))
            &&& address_keys(address) == Ok::<_, ErrorView>(
                (recipient.scan_public(), compressed_point(recipient.labeled_spend(m as nat))),
            )
        },
    }
}

/// Whether a transaction that lists the given keys has the output with the given public key: by all
/// of its 66 digits, or by all but the first two.
pub open spec fn is_in_transaction(listed: Seq<Seq<char>>, pubkey_hex: Seq<char>) -> bool {
    &&& pubkey_hex.len() == 66
    &&& exists|i: int|
        0 <= i < listed.len() && is_listed_as(
            #[trigger] listed[i],
            pubkey_hex,
            pubkey_hex.skip(2),
        )
}

/// A payment at a label is among those that are found at the labels.
proof fn lemma_label_is_found(
    recipient: RecipientView,
    shared: Seq<u8>,
    outputs: Seq<Seq<char>>,
    labels: Seq<u32>,
    k: nat,
    x: int,
)
    requires
        labeled_payments(recipient.scan, recipient.spend, shared, outputs, labels, k) is Ok,
        0 <= x < labels.len(),
        match_point(outputs, labeled_output_log(recipient, shared, k, Some(labels[x]))) is Some,
    ensures
        labeled_output_log(recipient, shared, k, Some(labels[x])) != 0,
        labeled_payments(
            recipient.scan,
            recipient.spend,
            shared,
            outputs,
            labels,
            k,
        )->Ok_0.contains(
            payment_at(
                shared,
                k,
                match_point(
                    outputs,
                    labeled_output_log(recipient, shared, k, Some(labels[x])),
                ).unwrap(),
                Some(labels[x]),
            ),
        ),
    decreases labels.len(),
{
    let payment = payment_at(
        shared,
        k,
        match_point(outputs, labeled_output_log(recipient, shared, k, Some(labels[x]))).unwrap(),
        Some(labels[x]),
    );
    let shorter = labels.drop_last();
    let before = labeled_payments(
        recipient.scan,
        recipient.spend,
        shared,
        outputs,
        shorter,
        k,
    )->Ok_0;
    let found = labeled_payments(
        recipient.scan,
        recipient.spend,
        shared,
        outputs,
        labels,
        k,
    )->Ok_0;
    if x < shorter.len() {
        lemma_label_is_found(recipient, shared, outputs, shorter, k, x);
        let f = choose|f: int| 0 <= f < before.len() && before[f] == payment;
        assert(found[f] == payment);
    } else {
        assert(found[before.len() as int] == payment);
    }
}

/// Whether the output `k` is in the transaction, at the standard address or at that of a label.
pub open spec fn is_hit(
    recipient: RecipientView,
    shared: Seq<u8>,
    outputs: Seq<Seq<char>>,
    labels: Seq<u32>,
    k: nat,
    label: Option<u32>,
) -> bool {
    &&& label matches Some(m) ==> labels.contains(m)
    &&& match_point(outputs, labeled_output_log(recipient, shared, k, label)) is Some
}

/// Whether the output `k` is in the transaction at some address.
pub open spec fn has_hit(
    recipient: RecipientView,
    shared: Seq<u8>,
    outputs: Seq<Seq<char>>,
    labels: Seq<u32>,
    k: nat,
) -> bool {
    exists|label: Option<u32>| is_hit(recipient, shared, outputs, labels, k, label)
}

/// A scan finds the output `k` if the outputs before it are in the transaction as well.
pub proof fn lemma_scan_reaches(
    recipient: RecipientView,
    shared: Seq<u8>,
    outputs: Seq<Seq<char>>,
    labels: Seq<u32>,
    start: nat,
    k: nat,
    label: Option<u32>,
    found: Seq<FoundPaymentView>,
)
    requires
        start <= k,
        labeled_scan(recipient.scan, recipient.spend, shared, outputs, labels, start) == Some(
            Ok::<_, ErrorView>(found),
        ),
        forall|j: nat|
            start <= j < k ==> #[trigger] has_hit(recipient, shared, outputs, labels, j),
        is_hit(recipient, shared, outputs, labels, k, label),
    ensures
        output_error(recipient.spend, shared, k) is None,
        labeled_output_log(recipient, shared, k, label) != 0,
        found.contains(
            payment_at(
                shared,
                k,
                match_point(outputs, labeled_output_log(recipient, shared, k, label)).unwrap(),
                label,
            ),
        ),
    decreases k - start,
{
    let hit: Option<u32> = if start == k {
        label
    } else {
        assert(has_hit(recipient, shared, outputs, labels, start));
        choose|l: Option<u32>| is_hit(recipient, shared, outputs, labels, start, l)
    };
    assert(is_hit(recipient, shared, outputs, labels, start, hit));
    let unlabeled = unlabeled_payment(recipient.spend, shared, outputs, start);
    let labeled = labeled_payments(
        recipient.scan,
        recipient.spend,
        shared,
        outputs,
        labels,
        start,
    )->Ok_0;
    let here = unlabeled + labeled;
    let payment = payment_at(
        shared,
        start,
        match_point(outputs, labeled_output_log(recipient, shared, start, hit)).unwrap(),
        hit,
    );
    let position: int = match hit {
        None => 0,
        Some(m) => {
            let x = choose|x: int| 0 <= x < labels.len() && labels[x] == m;
            lemma_label_is_found(recipient, shared, outputs, labels, start, x);
            let f = choose|f: int| 0 <= f < labeled.len() && labeled[f] == payment;
            unlabeled.len() + f
        },
    };
    assert(here[position] == payment);
    let rest = labeled_scan(
        recipient.scan,
        recipient.spend,
        shared,
        outputs,
        labels,
        start + 1,
    ).unwrap()->Ok_0;
    assert(found == here + rest);
    if start == k {
        assert(found[position] == payment);
    } else {
        lemma_scan_reaches(recipient, shared, outputs, labels, start + 1, k, label, rest);
        let late = payment_at(
            shared,
            k,
            match_point(outputs, labeled_output_log(recipient, shared, k, label)).unwrap(),
            label,
        );
        let f = choose|f: int| 0 <= f < rest.len() && rest[f] == late;
        assert(found[here.len() + f] == late);
    }
}

/// The output that a sender makes for an own address is the one that the scan looks for.
proof fn lemma_sent_key(
    recipient: RecipientView,
    labels: Seq<u32>,
    secret: nat,
    earlier: Seq<Seq<char>>,
    address: Seq<char>,
    label: Option<u32>,
)
    requires
        recipient.wf(),
        is_secret(secret),
        is_point(compressed_point(secret)),
        is_own_address(recipient, labels, address, label),
        sent_output(secret, earlier, address) is Ok,
    ensures
        ({
            let shared = scanner_of(recipient).shared(compressed_point(secret));
            let k = same_scan(earlier, recipient.scan_public());
            sent_output(secret, earlier, address)->Ok_0.pubkey_hex == hex_text(
                compressed_point(labeled_output_log(recipient, shared, k, label)),
            )
        }),
{
    law_shared_point_agrees(recipient.scan, secret);
    let shared = scanner_of(recipient).shared(compressed_point(secret));
    let k = same_scan(earlier, recipient.scan_public());
    match label {
        None => {
            lemma_log_of_point(recipient.spend);
        },
        Some(m) => {
            lemma_log_of_point(recipient.labeled_spend(m as nat));
            lemma_add_mod_swap(
                recipient.spend,
                label_tweak(recipient.scan, m as nat),
                output_tweak(shared, k),
            );
        },
    }
}

/// A transaction that has the output with the key of a point matches the point.
proof fn lemma_in_transaction(listed: Seq<Seq<char>>, log: nat)
    requires
        is_in_transaction(listed, hex_text(compressed_point(log))),
    ensures
        match_point(listed, log) is Some,
{
    let full = hex_text(compressed_point(log));
    let xonly = hex_text(compressed_point(log).skip(1));
    let i = choose|i: int|
        0 <= i < listed.len() && is_listed_as(#[trigger] listed[i], full, full.skip(2));
    assert(full.skip(2) =~= xonly);
    lemma_first_match(listed, full, xonly, i);
}

/// What is sent is found: a scan with the tweak data of the sender finds a payment to the standard
/// address or to that of one of the labels, whatever else the transaction pays to, if the payments
/// to the same recipient before it are such payments as well. The found payment tells the label, and
/// the key that it derives is the one of the sent output.
pub proof fn law_sent_payments_are_found(
    recipient: RecipientView,
    labels: Seq<u32>,
    inputs: Seq<InputView>,
    addresses: Seq<Seq<char>>,
    outputs: Seq<OutputView>,
    tweak_data: Seq<char>,
    listed: Seq<Seq<char>>,
    found: Seq<FoundPaymentView>,
    j: int,
    label: Option<u32>,
) -> (f: int)
    requires
        recipient.wf(),
        outputs_of(inputs, addresses) == Ok::<_, ErrorView>(outputs),
        tweak_data_of(inputs) == Ok::<_, ErrorView>(tweak_data),
        forall|i: int|
            0 <= i <= j && has_scan(#[trigger] addresses[i], recipient.scan_public()) ==> {
                &&& is_in_transaction(listed, outputs[i].pubkey_hex)
                &&& exists|l: Option<u32>| is_own_address(recipient, labels, addresses[i], l)
            },
        scanner_of(recipient).scan_labeled(seq![tweak_data], listed, labels) == Some(
            Ok::<_, ErrorView>(found),
        ),
        0 <= j < addresses.len(),
        is_own_address(recipient, labels, addresses[j], label),
    ensures
        0 <= f < found.len(),
        found[f].label == label,
        recipient.spending_key(found[f]) is Ok,
        hex_text(compressed_point(recipient.spending_key(found[f])->Ok_0))
            == outputs[j].pubkey_hex,
{
    let secret = sender_secret(inputs, true)->Ok_0;
    let scan = recipient.scan_public();
    law_tweak_data_of_sender(inputs, addresses);
    law_scanner_of_recipient(recipient);
    law_hex_round_trip(compressed_point(secret));
    let point = compressed_point(secret);
    assert(point_from_hex(tweak_data, "Invalid compressed pubkey: "@) == Ok::<_, ErrorView>(point));
    let shared = scanner_of(recipient).shared(point);
    let k = same_scan(addresses.take(j), scan);
    assert forall|i: nat| i < k implies #[trigger] has_hit(
        recipient,
        shared,
        listed,
        labels,
        i,
    ) by {
        let at = law_numbers_have_no_gaps(addresses.take(j), scan, i);
        assert(has_scan(addresses[at], scan));
        assert(addresses.take(j).take(at) =~= addresses.take(at));
        let l = choose|l: Option<u32>| is_own_address(recipient, labels, addresses[at], l);
        lemma_hit(recipient, labels, secret, addresses, outputs, listed, at, l);
        assert(is_hit(recipient, shared, listed, labels, i, l));
    }
    assert(has_scan(addresses[j], scan));
    lemma_hit(recipient, labels, secret, addresses, outputs, listed, j, label);
    lemma_scan_reaches(recipient, shared, listed, labels, 0, k, label, found);
    let index = match_point(
        listed,
        labeled_output_log(recipient, shared, k, label),
    ).unwrap();
    law_payment_is_spendable(recipient, shared, k, index, label);
    choose|f: int| 0 <= f < found.len() && found[f] == payment_at(shared, k, index, label)
}

/// An output to an own address that is in the transaction is what the scan looks for.
pub proof fn lemma_hit(
    recipient: RecipientView,
    labels: Seq<u32>,
    secret: nat,
    addresses: Seq<Seq<char>>,
    outputs: Seq<OutputView>,
    listed: Seq<Seq<char>>,
    j: int,
    label: Option<u32>,
)
    requires
        recipient.wf(),
        is_secret(secret),
        is_point(compressed_point(secret)),
        sent_outputs(secret, addresses) == Ok::<_, ErrorView>(outputs),
        0 <= j < addresses.len(),
        is_in_transaction(listed, outputs[j].pubkey_hex),
        is_own_address(recipient, labels, addresses[j], label),
    ensures
        ({
            let shared = scanner_of(recipient).shared(compressed_point(secret));
            let k = same_scan(addresses.take(j), recipient.scan_public());
            &&& is_hit(recipient, shared, listed, labels, k, label)
            &&& outputs[j].pubkey_hex == hex_text(
                compressed_point(labeled_output_log(recipient, shared, k, label)),
            )
        }),
{
    let shared = scanner_of(recipient).shared(compressed_point(secret));
    let k = same_scan(addresses.take(j), recipient.scan_public());
    law_outputs_in_order(secret, addresses, j);
    lemma_sent_key(recipient, labels, secret, addresses.take(j), addresses[j], label);
    lemma_in_transaction(listed, labeled_output_log(recipient, shared, k, label));
}

/// What is sent to the standard address is found without labels, if the payments to the same
/// recipient before it are to the standard address as well.
pub proof fn law_sent_plain_payments_are_found(
    recipient: RecipientView,
    inputs: Seq<InputView>,
    addresses: Seq<Seq<char>>,
    outputs: Seq<OutputView>,
    tweak_data: Seq<char>,
    listed: Seq<Seq<char>>,
    found: Seq<FoundPaymentView>,
    j: int,
) -> (f: int)
    requires
        recipient.wf(),
        outputs_of(inputs, addresses) == Ok::<_, ErrorView>(outputs),
        tweak_data_of(inputs) == Ok::<_, ErrorView>(tweak_data),
        forall|i: int|
            0 <= i <= j && has_scan(#[trigger] addresses[i], recipient.scan_public()) ==> {
                &&& is_in_transaction(listed, outputs[i].pubkey_hex)
                &&& is_own_address(recipient, Seq::empty(), addresses[i], None)
            },
        scanner_of(recipient).scan_plain(seq![tweak_data], listed) == Some(
            Ok::<_, ErrorView>(found),
        ),
        0 <= j < addresses.len(),
        is_own_address(recipient, Seq::empty(), addresses[j], None),
    ensures
        0 <= f < found.len(),
        recipient.spending_key(found[f]) is Ok,
        hex_text(compressed_point(recipient.spending_key(found[f])->Ok_0))
            == outputs[j].pubkey_hex,
{
    law_no_labels(scanner_of(recipient), seq![tweak_data], listed);
    law_sent_payments_are_found(
        recipient,
        Seq::empty(),
        inputs,
        addresses,
        outputs,
        tweak_data,
        listed,
        found,
        j,
        None,
    )
}

/// The number that an input adds to the key sum.
spec fn number_of(input: InputView) -> nat {
    input_number(input_parts(input, false)->Ok_0.0, input.is_taproot)
}

/// The key sum of some inputs is the sum of their numbers, modulo the curve order.
proof fn lemma_sum_of_numbers(inputs: Seq<InputView>)
    requires
        inputs_parts(inputs, false) is Ok,
        input_sum(inputs_parts(inputs, false)->Ok_0.0) is Some,
    ensures
        input_sum(inputs_parts(inputs, false)->Ok_0.0).unwrap() % curve_order()
            == inputs.fold_left(0nat, |sum: nat, input: InputView| sum + number_of(input))
            % curve_order(),
    decreases inputs.len(),
{
    let f = |sum: nat, input: InputView| sum + number_of(input);
    let n = curve_order() as int;
    lemma_inputs_parts_len(inputs, false);
    let keys = inputs_parts(inputs, false)->Ok_0.0;
    let shorter = inputs.drop_last();
    lemma_inputs_parts_len(shorter, false);
    let shorter_keys = inputs_parts(shorter, false)->Ok_0.0;
    assert(keys.drop_last() =~= shorter_keys);
    let number = number_of(inputs.last());
    assert(number == input_number(keys.last().0, keys.last().1));
    if inputs.len() == 1 {
        assert(shorter.fold_left(0nat, f) == 0);
    } else {
        lemma_sum_of_numbers(shorter);
        let sum = input_sum(shorter_keys).unwrap();
        let total = shorter.fold_left(0nat, f);
        lemma_add_mod_noop_right(number as int, sum as int, n);
        lemma_add_mod_noop_right(number as int, total as int, n);
        lemma_mod_twice((sum + number) as int, n);
    }
}

/// The outpoints of inputs have 36 bytes and are those of the single inputs.
proof fn lemma_outpoints(inputs: Seq<InputView>, i: int)
    requires
        inputs_parts(inputs, false) is Ok,
        0 <= i < inputs.len(),
    ensures
        inputs_parts(inputs, false)->Ok_0.1.len() == inputs.len(),
        input_parts(inputs[i], false) is Ok,
        inputs_parts(inputs, false)->Ok_0.1[i] == input_parts(inputs[i], false)->Ok_0.1,
        inputs_parts(inputs, false)->Ok_0.1[i].len() == 36,
    decreases inputs.len(),
{
    lemma_inputs_parts_len(inputs, false);
    let shorter = inputs.drop_last();
    lemma_inputs_parts_len(shorter, false);
    if i < shorter.len() {
        lemma_outpoints(shorter, i);
    } else {
        lemma_be_bytes_len(inputs[i].vout as nat, 4);
    }
}

/// Some outpoints, if there are any, have a smallest one.
pub proof fn lemma_smallest(outpoints: Seq<Seq<u8>>)
    requires
        outpoints.len() > 0,
    ensures
        is_smallest(outpoints, smallest(outpoints)),
    decreases outpoints.len(),
{
    let last = outpoints.last();
    let shorter = outpoints.drop_last();
    assert(outpoints[outpoints.len() - 1] == last);
    if shorter.len() == 0 {
        assert(is_smallest(outpoints, last));
    } else {
        lemma_smallest(shorter);
        let least = smallest(shorter);
        let x = choose|x: int| 0 <= x < shorter.len() && shorter[x] == least;
        assert(outpoints[x] == least);
        let next = if be_nat(last) < be_nat(least) {
            last
        } else {
            least
        };
        assert forall|i: int| 0 <= i < outpoints.len() implies be_nat(next) <= be_nat(
            #[trigger] outpoints[i],
        ) by {
            if i < shorter.len() {
                assert(shorter[i] == outpoints[i]);
            }
        }
        assert(is_smallest(outpoints, next));
    }
}

/// The smallest outpoint of one list of inputs is not below that of another that has the same.
proof fn lemma_smallest_order(a: Seq<InputView>, b: Seq<InputView>)
    requires
        a.len() > 0,
        inputs_parts(a, false) is Ok,
        inputs_parts(b, false) is Ok,
        a.to_multiset() == b.to_multiset(),
    ensures
        b.len() > 0,
        be_nat(smallest(inputs_parts(b, false)->Ok_0.1)) <= be_nat(
            smallest(inputs_parts(a, false)->Ok_0.1),
        ),
        smallest(inputs_parts(a, false)->Ok_0.1).len() == 36,
{
    let from = inputs_parts(a, false)->Ok_0.1;
    let to = inputs_parts(b, false)->Ok_0.1;
    lemma_outpoints(a, 0);
    lemma_smallest(from);
    let x = choose|x: int| 0 <= x < from.len() && from[x] == smallest(from);
    lemma_outpoints(a, x);
    to_multiset_contains(a, a[x]);
    to_multiset_contains(b, a[x]);
    assert(a.contains(a[x]));
    let y = choose|y: int| 0 <= y < b.len() && b[y] == a[x];
    lemma_outpoints(b, y);
    lemma_smallest(to);
    assert(to[y] == from[x]);
}

/// Inputs with one partial secret have the same tweak data, and make the same outputs.
proof fn lemma_secret_decides(a: Seq<InputView>, b: Seq<InputView>, addresses: Seq<Seq<char>>)
    requires
        a.len() > 0,
        b.len() > 0,
        sender_secret(a, false) is Ok,
        sender_secret(a, false) == sender_secret(b, false),
    ensures
        tweak_data_of(a) == tweak_data_of(b),
        outputs_of(a, addresses) == outputs_of(b, addresses),
{
    lemma_inputs_parts(a);
    lemma_inputs_parts(b);
}

/// The order of the inputs does not matter: neither the tweak data of a transaction nor its outputs
/// depend on it.
pub proof fn law_input_order(a: Seq<InputView>, b: Seq<InputView>, addresses: Seq<Seq<char>>)
    requires
        a.to_multiset() == b.to_multiset(),
        tweak_data_of(a) is Ok,
        tweak_data_of(b) is Ok,
    ensures
        tweak_data_of(a) == tweak_data_of(b),
        outputs_of(a, addresses) == outputs_of(b, addresses),
{
    let f = |sum: nat, input: InputView| sum + number_of(input);
    assert(commutative_foldl(f));
    lemma_fold_left_permutation(a, b, f, 0nat);
    lemma_sum_of_numbers(a);
    lemma_sum_of_numbers(b);
    lemma_sum_is_secret(a);
    lemma_sum_is_secret(b);
    let sum_a = input_sum(inputs_parts(a, false)->Ok_0.0).unwrap();
    let sum_b = input_sum(inputs_parts(b, false)->Ok_0.0).unwrap();
    lemma_small_mod(sum_a, curve_order());
    lemma_small_mod(sum_b, curve_order());
    lemma_smallest_order(a, b);
    lemma_smallest_order(b, a);
    lemma_be_nat_injective(
        smallest(inputs_parts(a, false)->Ok_0.1),
        smallest(inputs_parts(b, false)->Ok_0.1),
    );
    lemma_secret_decides(a, b, addresses);
}

/// Inputs that add the same numbers have the same sum.
proof fn lemma_same_numbers(a: Seq<(nat, bool)>, b: Seq<(nat, bool)>)
    requires
        a.len() == b.len(),
        forall|j: int|
            0 <= j < a.len() ==> #[trigger] input_number(a[j].0, a[j].1) == input_number(
                b[j].0,
                b[j].1,
            ),
    ensures
        input_sum(a) == input_sum(b),
    decreases a.len(),
{
    if a.len() > 0 {
        let last = a.len() - 1;
        assert(input_number(a[last].0, a[last].1) == input_number(b[last].0, b[last].1));
        let (x, y) = (a.drop_last(), b.drop_last());
        assert forall|j: int| 0 <= j < x.len() implies #[trigger] input_number(x[j].0, x[j].1)
            == input_number(y[j].0, y[j].1) by {
            assert(input_number(a[j].0, a[j].1) == input_number(b[j].0, b[j].1));
        }
        lemma_same_numbers(x, y);
    }
}

/// The key of an input, with its mark.
proof fn lemma_input_key(inputs: Seq<InputView>, j: int)
    requires
        inputs_parts(inputs, false) is Ok,
        0 <= j < inputs.len(),
    ensures
        inputs_parts(inputs, false)->Ok_0.0.len() == inputs.len(),
        inputs_parts(inputs, false)->Ok_0.0[j] == (
            input_parts(inputs[j], false)->Ok_0.0,
            inputs[j].is_taproot,
        ),
    decreases inputs.len(),
{
    lemma_inputs_parts_len(inputs, false);
    let shorter = inputs.drop_last();
    lemma_inputs_parts_len(shorter, false);
    if j < shorter.len() {
        lemma_input_key(shorter, j);
    }
}

/// An input may be replaced by one that adds the same number and has the same outpoint.
proof fn lemma_replaced(a: Seq<InputView>, b: Seq<InputView>, i: int)
    requires
        a.len() == b.len(),
        0 <= i < a.len(),
        forall|j: int| 0 <= j < a.len() && j != i ==> a[j] == #[trigger] b[j],
        inputs_parts(a, false) is Ok,
        inputs_parts(b, false) is Ok,
        number_of(a[i]) == number_of(b[i]),
        input_parts(a[i], false)->Ok_0.1 == input_parts(b[i], false)->Ok_0.1,
    ensures
        input_sum(inputs_parts(a, false)->Ok_0.0) == input_sum(inputs_parts(b, false)->Ok_0.0),
        inputs_parts(a, false)->Ok_0.1 == inputs_parts(b, false)->Ok_0.1,
{
    let (keys_a, outpoints_a) = inputs_parts(a, false)->Ok_0;
    let (keys_b, outpoints_b) = inputs_parts(b, false)->Ok_0;
    lemma_inputs_parts_len(a, false);
    lemma_inputs_parts_len(b, false);
    assert forall|j: int| 0 <= j < keys_a.len() implies #[trigger] input_number(
        keys_a[j].0,
        keys_a[j].1,
    ) == input_number(keys_b[j].0, keys_b[j].1) by {
        lemma_input_key(a, j);
        lemma_input_key(b, j);
        assert(j != i ==> a[j] == b[j]);
    }
    lemma_same_numbers(keys_a, keys_b);
    assert forall|j: int| 0 <= j < outpoints_a.len() implies outpoints_a[j] == outpoints_b[j] by {
        lemma_outpoints(a, j);
        lemma_outpoints(b, j);
        assert(j != i ==> a[j] == b[j]);
    }
    assert(outpoints_a =~= outpoints_b);
}

/// A taproot key may be given with either sign: a key whose point is odd counts as its negative. So
/// the input with the key `d`, that with its negative, and that with the even one of the two and
/// without the mark of taproot have the same tweak data, and make the same outputs. That one of the
/// two points is even and the other odd is a fact about the curve.
pub proof fn law_taproot_sign(
    a: Seq<InputView>,
    b: Seq<InputView>,
    i: int,
    d: nat,
    e: nat,
    addresses: Seq<Seq<char>>,
)
    requires
        a.len() == b.len(),
        0 <= i < a.len(),
        forall|j: int| 0 <= j < a.len() && j != i ==> a[j] == #[trigger] b[j],
        a[i].txid == b[i].txid,
        a[i].vout == b[i].vout,
        secret_from_hex(a[i].secret_key_hex, ""@) == Ok::<_, ErrorView>(d),
        secret_from_hex(b[i].secret_key_hex, ""@) == Ok::<_, ErrorView>(e),
        (compressed_point(d)[0] == 3) != (compressed_point((curve_order() - d) as nat)[0] == 3),
        a[i].is_taproot,
        e == d || e == curve_order() - d,
        b[i].is_taproot || compressed_point(e)[0] != 3,
        tweak_data_of(a) is Ok,
        tweak_data_of(b) is Ok,
    ensures
        tweak_data_of(a) == tweak_data_of(b),
        outputs_of(a, addresses) == outputs_of(b, addresses),
{
    lemma_input_key(a, i);
    lemma_input_key(b, i);
    lemma_outpoints(a, i);
    lemma_outpoints(b, i);
    assert(number_of(a[i]) == number_of(b[i]));
    lemma_replaced(a, b, i);
    lemma_secret_decides(a, b, addresses);
}

} // verus!
