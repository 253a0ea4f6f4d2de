//! What a scan finds, and what the recipient can do with it.

use crate::bip352::{
    first_match, is_first_match, is_listed_as, label_tweak, lemma_first_match, match_point,
    output_error, output_log, output_tweak, point_from_hex,
};
use crate::bytes::be_bytes;
use crate::curve::{add_mod, compressed_point, curve_order, lemma_scalar_bytes};
use crate::error::ErrorView;
use crate::laws::round_trip::{law_hex_round_trip, law_scanner_of_recipient, scanner_of};
use crate::payment::FoundPaymentView;
use crate::recipient::RecipientView;
use crate::scanner::{
    labeled_payments, labeled_scan, payment_at, plain_scan, unlabeled_payment, ScannerView,
};
use crate::text::hex_text;
use vstd::arithmetic::div_mod::lemma_add_mod_noop_right;
use vstd::prelude::*;

verus! {

/// A sum of three numbers does not depend on the order in which the last two are added.
pub proof fn lemma_add_mod_swap(a: nat, b: nat, c: nat)
    ensures
        add_mod(add_mod(a, b), c) == add_mod(add_mod(a, c), b),
{
    let n = curve_order() as int;
    lemma_add_mod_noop_right(c as int, (a + b) as int, n);
    lemma_add_mod_noop_right(b as int, (a + c) as int, n);
}

/// The logarithm of the key of the output `k`, at the standard address or at that of a label.
pub open spec fn labeled_output_log(
    recipient: RecipientView,
    shared: Seq<u8>,
    k: nat,
    label: Option<u32>,
) -> nat {
    match label {
        None => output_log(recipient.spend, shared, k),
        Some(m) => add_mod(
            output_log(recipient.spend, shared, k),
            label_tweak(recipient.scan, m as nat),
        ),
    }
}

/// Whether a label, if there is one, has an address.
pub open spec fn has_address(recipient: RecipientView, label: Option<u32>) -> bool {
    label matches Some(m) ==> recipient.labeled_address(m as nat) is Ok
}

/// The key that spends a payment is the one of the output in which the payment was found.
pub proof fn law_payment_is_spendable(
    recipient: RecipientView,
    shared: Seq<u8>,
    k: nat,
    output_index: u32,
    label: Option<u32>,
)
    requires
        recipient.wf(),
        has_address(recipient, label),
        output_error(recipient.spend, shared, k) is None,
        labeled_output_log(recipient, shared, k, label) != 0,
    ensures
        recipient.spending_key(payment_at(shared, k, output_index, label)) == Ok::<_, ErrorView>(
            labeled_output_log(recipient, shared, k, label),
        ),
{
    let t = output_tweak(shared, k);
    lemma_scalar_bytes(t);
    law_hex_round_trip(be_bytes(t, 32));
    if let Some(m) = label {
        lemma_add_mod_swap(recipient.spend, label_tweak(recipient.scan, m as nat), t);
    }
}

/// What a scan finds is the outcome of some output `k`: the payment is to the standard address or to
/// that of one of the labels, and the output that it names lists the key of the output `k`.
pub open spec fn is_found_at(
    recipient: RecipientView,
    shared: Seq<u8>,
    outputs: Seq<Seq<char>>,
    labels: Seq<u32>,
    k: nat,
    payment: FoundPaymentView,
) -> bool {
    let log = labeled_output_log(recipient, shared, k, payment.label);
    &&& payment == payment_at(shared, k, payment.output_index, payment.label)
    &&& payment.label matches Some(m) ==> labels.contains(m)
    &&& output_error(recipient.spend, shared, k) is None
    &&& log != 0
    &&& match_point(outputs, log) == Some(payment.output_index)
}

/// Every payment that is found at the labels is one of theirs.
proof fn lemma_labeled_payments(
    recipient: RecipientView,
    shared: Seq<u8>,
    outputs: Seq<Seq<char>>,
    labels: Seq<u32>,
    n: int,
    k: nat,
    f: int,
)
    requires
        0 <= n <= labels.len(),
        output_error(recipient.spend, shared, k) is None,
        labeled_payments(
            recipient.scan,
            recipient.spend,
            shared,
            outputs,
            labels.take(n),
            k,
        ) is Ok,
        0 <= f < labeled_payments(
            recipient.scan,
            recipient.spend,
            shared,
            outputs,
            labels.take(n),
            k,
        )->Ok_0.len(),
    ensures
        is_found_at(
            recipient,
            shared,
            outputs,
            labels,
            k,
            labeled_payments(
                recipient.scan,
                recipient.spend,
                shared,
                outputs,
                labels.take(n),
                k,
            )->Ok_0[f],
        ),
    decreases n,
{
    if n > 0 {
        assert(labels.take(n).drop_last() =~= labels.take(n - 1));
        assert(labels.take(n).last() == labels[n - 1]);
        assert(labels.contains(labels[n - 1]));
        let before = labeled_payments(
            recipient.scan,
            recipient.spend,
            shared,
            outputs,
            labels.take(n - 1),
            k,
        )->Ok_0;
        if f < before.len() {
            lemma_labeled_payments(recipient, shared, outputs, labels, n - 1, k, f);
        }
    }
}

/// Every payment that a scan finds is the outcome of some output `k`.
pub proof fn lemma_labeled_scan(
    recipient: RecipientView,
    shared: Seq<u8>,
    outputs: Seq<Seq<char>>,
    labels: Seq<u32>,
    k: nat,
    found: Seq<FoundPaymentView>,
    f: int,
)
    requires
        labeled_scan(recipient.scan, recipient.spend, shared, outputs, labels, k) == Some(
            Ok::<_, ErrorView>(found),
        ),
        0 <= f < found.len(),
    ensures
        exists|j: nat| is_found_at(recipient, shared, outputs, labels, j, found[f]),
    decreases 0x1_0000_0000 - k,
{
    let unlabeled = unlabeled_payment(recipient.spend, shared, outputs, k);
    assert(labels.take(labels.len() as int) =~= labels);
    let labeled = labeled_payments(
        recipient.scan,
        recipient.spend,
        shared,
        outputs,
        labels,
        k,
    )->Ok_0;
    let here = unlabeled + labeled;
    if f < unlabeled.len() {
        assert(found[f] == unlabeled[f]);
        assert(is_found_at(recipient, shared, outputs, labels, k, found[f]));
    } else if f < here.len() {
        assert(found[f] == labeled[f - unlabeled.len()]);
        lemma_labeled_payments(
            recipient,
            shared,
            outputs,
            labels,
            labels.len() as int,
            k,
            f - unlabeled.len(),
        );
        assert(is_found_at(recipient, shared, outputs, labels, k, found[f]));
    } else {
        let rest = labeled_scan(
            recipient.scan,
            recipient.spend,
            shared,
            outputs,
            labels,
            k + 1,
        ).unwrap()->Ok_0;
        assert(found == here + rest);
        assert(found[f] == rest[f - here.len()]);
        lemma_labeled_scan(
            recipient,
            shared,
            outputs,
            labels,
            k + 1,
            rest,
            f - here.len(),
        );
    }
}

/// Whether an output lists the point with the given logarithm, by its full or by its x-only key.
pub open spec fn lists(output: Seq<char>, log: nat) -> bool {
    is_listed_as(
        output,
        hex_text(compressed_point(log)),
        hex_text(compressed_point(log).skip(1)),
    )
}

/// An output that matches lists the point.
pub proof fn lemma_match_point(outputs: Seq<Seq<char>>, log: nat)
    requires
        match_point(outputs, log) is Some,
        outputs.len() <= 0x1_0000_0000,
    ensures
        match_point(outputs, log).unwrap() < outputs.len(),
        lists(outputs[match_point(outputs, log).unwrap() as int], log),
{
    let full = hex_text(compressed_point(log));
    let xonly = hex_text(compressed_point(log).skip(1));
    let i = choose|i: int| is_first_match(outputs, full, xonly, i);
    assert(is_first_match(outputs, full, xonly, i));
    assert(i as u32 == i);
}

/// Every payment that a scan finds can be spent by the recipient: the key that it derives is the one
/// of the output that the payment names. The payment is to the standard address or to that of one
/// of the labels.
pub proof fn law_found_payments_are_spendable(
    recipient: RecipientView,
    senders: Seq<Seq<char>>,
    outputs: Seq<Seq<char>>,
    labels: Seq<u32>,
    found: Seq<FoundPaymentView>,
    f: int,
)
    requires
        recipient.wf(),
        outputs.len() <= 0x1_0000_0000,
        scanner_of(recipient).scan_labeled(senders, outputs, labels) == Some(
            Ok::<_, ErrorView>(found),
        ),
        0 <= f < found.len(),
        has_address(recipient, found[f].label),
    ensures
        recipient.spending_key(found[f]) is Ok,
        found[f].output_index < outputs.len(),
        lists(
            outputs[found[f].output_index as int],
            recipient.spending_key(found[f])->Ok_0,
        ),
        found[f].label matches Some(m) ==> labels.contains(m),
        found[f].amount_sats == 0,
{
    law_scanner_of_recipient(recipient);
    let point = point_from_hex(senders[0], "Invalid compressed pubkey: "@)->Ok_0;
    let shared = scanner_of(recipient).shared(point);
    lemma_labeled_scan(recipient, shared, outputs, labels, 0, found, f);
    let k = choose|k: nat| is_found_at(recipient, shared, outputs, labels, k, found[f]);
    law_payment_is_spendable(recipient, shared, k, found[f].output_index, found[f].label);
    lemma_match_point(outputs, labeled_output_log(recipient, shared, k, found[f].label));
}

/// Without labels, a scan with labels finds what a scan without them finds.
proof fn lemma_no_labels(scan: nat, spend: nat, shared: Seq<u8>, outputs: Seq<Seq<char>>, k: nat)
    ensures
        labeled_scan(scan, spend, shared, outputs, Seq::empty(), k) == plain_scan(
            spend,
            shared,
            outputs,
            k,
        ),
    decreases 0x1_0000_0000 - k,
{
    if k <= u32::MAX {
        lemma_no_labels(scan, spend, shared, outputs, k + 1);
        let unlabeled = unlabeled_payment(spend, shared, outputs, k);
        assert(unlabeled + Seq::empty() =~= unlabeled);
    }
}

/// Given tweak data, a scan with an empty list of labels does what a scan without labels does.
pub proof fn law_no_labels(scanner: ScannerView, senders: Seq<Seq<char>>, outputs: Seq<Seq<char>>)
    requires
        senders.len() > 0,
    ensures
        scanner.scan_labeled(senders, outputs, Seq::empty()) == scanner.scan_plain(
            senders,
            outputs,
        ),
{
    if let Ok(point) = point_from_hex(senders[0], "Invalid compressed pubkey: "@) {
        lemma_no_labels(scanner.scan, scanner.spend(), scanner.shared(point), outputs, 0);
    }
}

/// The payments to the standard address among some payments.
pub open spec fn unlabeled_of(found: Seq<FoundPaymentView>) -> Seq<FoundPaymentView> {
    found.filter(|payment: FoundPaymentView| payment.label is None)
}

/// Payments to labeled addresses are not to the standard address.
proof fn lemma_labeled_only(found: Seq<FoundPaymentView>)
    requires
        forall|f: int| 0 <= f < found.len() ==> (#[trigger] found[f]).label is Some,
    ensures
        unlabeled_of(found) == Seq::<FoundPaymentView>::empty(),
    decreases found.len(),
{
    reveal(Seq::filter);
    if found.len() > 0 {
        assert(found.last() == found[found.len() - 1]);
        lemma_labeled_only(found.drop_last());
    }
}

/// What is found at labels has labels.
proof fn lemma_labels_are_told(
    scan: nat,
    spend: nat,
    shared: Seq<u8>,
    outputs: Seq<Seq<char>>,
    labels: Seq<u32>,
    k: nat,
    f: int,
)
    requires
        labeled_payments(scan, spend, shared, outputs, labels, k) is Ok,
        0 <= f < labeled_payments(scan, spend, shared, outputs, labels, k)->Ok_0.len(),
    ensures
        labeled_payments(scan, spend, shared, outputs, labels, k)->Ok_0[f].label is Some,
    decreases labels.len(),
{
    if labels.len() > 0 {
        let before = labeled_payments(
            scan,
            spend,
            shared,
            outputs,
            labels.drop_last(),
            k,
        )->Ok_0;
        if f < before.len() {
            lemma_labels_are_told(scan, spend, shared, outputs, labels.drop_last(), k, f);
        }
    }
}

/// What a scan without labels finds from the output `k` on is the beginning of what a scan with
/// labels finds at the standard address.
proof fn lemma_plain_in_labeled(
    scan: nat,
    spend: nat,
    shared: Seq<u8>,
    outputs: Seq<Seq<char>>,
    labels: Seq<u32>,
    k: nat,
    plain: Seq<FoundPaymentView>,
    found: Seq<FoundPaymentView>,
)
    requires
        plain_scan(spend, shared, outputs, k) == Some(Ok::<_, ErrorView>(plain)),
        labeled_scan(scan, spend, shared, outputs, labels, k) == Some(Ok::<_, ErrorView>(found)),
    ensures
        plain.is_prefix_of(unlabeled_of(found)),
    decreases 0x1_0000_0000 - k,
{
    if plain.len() > 0 {
        let is_unlabeled = |payment: FoundPaymentView| payment.label is None;
        let unlabeled = unlabeled_payment(spend, shared, outputs, k);
        let labeled = labeled_payments(scan, spend, shared, outputs, labels, k)->Ok_0;
        let rest = labeled_scan(scan, spend, shared, outputs, labels, k + 1).unwrap()->Ok_0;
        let plain_rest = plain_scan(spend, shared, outputs, k + 1).unwrap()->Ok_0;
        assert(unlabeled.len() == 1);
        assert(found == unlabeled + labeled + rest);
        assert(plain == unlabeled + plain_rest);
        lemma_plain_in_labeled(scan, spend, shared, outputs, labels, k + 1, plain_rest, rest);
        assert forall|f: int| 0 <= f < labeled.len() implies (#[trigger] labeled[f]).label is Some by {
            lemma_labels_are_told(scan, spend, shared, outputs, labels, k, f);
        }
        lemma_labeled_only(labeled);
        assert(unlabeled.filter(is_unlabeled) =~= unlabeled) by {
            reveal_with_fuel(Seq::filter, 2);
            assert(unlabeled.drop_last() =~= Seq::empty());
        }
        Seq::filter_distributes_over_add(unlabeled + labeled, rest, is_unlabeled);
        Seq::filter_distributes_over_add(unlabeled, labeled, is_unlabeled);
        assert(unlabeled_of(found) =~= unlabeled + unlabeled_of(rest));
    }
}

/// One scan is enough: of what it finds with labels, the payments to the standard address begin with
/// all that a scan without labels finds, in the same order.
pub proof fn law_labels_lose_nothing(
    scanner: ScannerView,
    senders: Seq<Seq<char>>,
    outputs: Seq<Seq<char>>,
    labels: Seq<u32>,
    plain: Seq<FoundPaymentView>,
    found: Seq<FoundPaymentView>,
)
    requires
        scanner.scan_plain(senders, outputs) == Some(Ok::<_, ErrorView>(plain)),
        scanner.scan_labeled(senders, outputs, labels) == Some(Ok::<_, ErrorView>(found)),
    ensures
        plain.is_prefix_of(unlabeled_of(found)),
{
    let point = point_from_hex(senders[0], "Invalid compressed pubkey: "@)->Ok_0;
    lemma_plain_in_labeled(
        scanner.scan,
        scanner.spend(),
        scanner.shared(point),
        outputs,
        labels,
        0,
        plain,
        found,
    );
}

/// A match stays the first one when outputs are appended.
proof fn lemma_match_stays(outputs: Seq<Seq<char>>, more: Seq<Seq<char>>, log: nat)
    requires
        match_point(outputs, log) is Some,
    ensures
        match_point(outputs + more, log) == match_point(outputs, log),
{
    let full = hex_text(compressed_point(log));
    let xonly = hex_text(compressed_point(log).skip(1));
    let all = outputs + more;
    let i = choose|i: int| is_first_match(outputs, full, xonly, i);
    assert(is_first_match(outputs, full, xonly, i));
    assert(all[i] == outputs[i]);
    assert forall|j: int| 0 <= j < i implies !is_listed_as(#[trigger] all[j], full, xonly) by {
        assert(all[j] == outputs[j]);
    }
    assert(is_first_match(all, full, xonly, i));
    lemma_first_match(all, full, xonly, i);
    let c = choose|c: int|
        c <= i && is_first_match(all, full, xonly, c) && first_match(all, full, xonly) == Some(
            c as u32,
        );
    if c < i {
        assert(is_listed_as(all[c], full, xonly));
    }
}

/// What is found from the output `k` on is found when outputs are appended.
proof fn lemma_more_outputs_plain(
    spend: nat,
    shared: Seq<u8>,
    outputs: Seq<Seq<char>>,
    more: Seq<Seq<char>>,
    k: nat,
    before: Seq<FoundPaymentView>,
    after: Seq<FoundPaymentView>,
)
    requires
        plain_scan(spend, shared, outputs, k) == Some(Ok::<_, ErrorView>(before)),
        plain_scan(spend, shared, outputs + more, k) == Some(Ok::<_, ErrorView>(after)),
    ensures
        before.is_prefix_of(after),
    decreases 0x1_0000_0000 - k,
{
    if before.len() > 0 {
        lemma_match_stays(outputs, more, output_log(spend, shared, k));
        let rest = plain_scan(spend, shared, outputs, k + 1).unwrap()->Ok_0;
        let rest_after = plain_scan(spend, shared, outputs + more, k + 1).unwrap()->Ok_0;
        lemma_more_outputs_plain(spend, shared, outputs, more, k + 1, rest, rest_after);
        let here = unlabeled_payment(spend, shared, outputs, k);
        assert(before == here + rest);
        assert(after == here + rest_after);
    }
}

/// Outputs that are appended to a transaction do not change what was found: a scan without labels
/// finds it again, in the same order and first.
pub proof fn law_more_outputs_plain(
    scanner: ScannerView,
    senders: Seq<Seq<char>>,
    outputs: Seq<Seq<char>>,
    more: Seq<Seq<char>>,
    before: Seq<FoundPaymentView>,
    after: Seq<FoundPaymentView>,
)
    requires
        scanner.scan_plain(senders, outputs) == Some(Ok::<_, ErrorView>(before)),
        scanner.scan_plain(senders, outputs + more) == Some(Ok::<_, ErrorView>(after)),
    ensures
        before.is_prefix_of(after),
{
    let point = point_from_hex(senders[0], "Invalid compressed pubkey: "@)->Ok_0;
    lemma_more_outputs_plain(
        scanner.spend(),
        scanner.shared(point),
        outputs,
        more,
        0,
        before,
        after,
    );
}

/// What is found at labels is found when outputs are appended.
proof fn lemma_more_outputs_at_labels(
    scan: nat,
    spend: nat,
    shared: Seq<u8>,
    outputs: Seq<Seq<char>>,
    more: Seq<Seq<char>>,
    labels: Seq<u32>,
    k: nat,
    f: int,
)
    requires
        labeled_payments(scan, spend, shared, outputs, labels, k) is Ok,
        labeled_payments(scan, spend, shared, outputs + more, labels, k) is Ok,
        0 <= f < labeled_payments(scan, spend, shared, outputs, labels, k)->Ok_0.len(),
    ensures
        labeled_payments(scan, spend, shared, outputs + more, labels, k)->Ok_0.contains(
            labeled_payments(scan, spend, shared, outputs, labels, k)->Ok_0[f],
        ),
    decreases labels.len(),
{
    if labels.len() > 0 {
        let shorter = labels.drop_last();
        let before = labeled_payments(scan, spend, shared, outputs, shorter, k)->Ok_0;
        let after = labeled_payments(scan, spend, shared, outputs + more, shorter, k)->Ok_0;
        let payment = labeled_payments(scan, spend, shared, outputs, labels, k)->Ok_0[f];
        let all = labeled_payments(scan, spend, shared, outputs + more, labels, k)->Ok_0;
        if f < before.len() {
            lemma_more_outputs_at_labels(
                scan,
                spend,
                shared,
                outputs,
                more,
                shorter,
                k,
                f,
            );
            let g = choose|g: int| 0 <= g < after.len() && after[g] == payment;
            assert(all[g] == payment);
        } else {
            lemma_match_stays(
                outputs,
                more,
                add_mod(output_log(spend, shared, k), label_tweak(scan, labels.last() as nat)),
            );
            assert(all[after.len() as int] == payment);
        }
    }
}

/// What is found with labels from the output `k` on is found when outputs are appended.
proof fn lemma_more_outputs_labeled(
    scan: nat,
    spend: nat,
    shared: Seq<u8>,
    outputs: Seq<Seq<char>>,
    more: Seq<Seq<char>>,
    labels: Seq<u32>,
    k: nat,
    before: Seq<FoundPaymentView>,
    after: Seq<FoundPaymentView>,
    f: int,
)
    requires
        labeled_scan(scan, spend, shared, outputs, labels, k) == Some(Ok::<_, ErrorView>(before)),
        labeled_scan(scan, spend, shared, outputs + more, labels, k) == Some(
            Ok::<_, ErrorView>(after),
        ),
        0 <= f < before.len(),
    ensures
        after.contains(before[f]),
    decreases 0x1_0000_0000 - k,
{
    let all = outputs + more;
    let unlabeled = unlabeled_payment(spend, shared, outputs, k);
    let labeled = labeled_payments(scan, spend, shared, outputs, labels, k)->Ok_0;
    let unlabeled_after = unlabeled_payment(spend, shared, all, k);
    let labeled_after = labeled_payments(scan, spend, shared, all, labels, k)->Ok_0;
    let here = unlabeled + labeled;
    let here_after = unlabeled_after + labeled_after;
    let rest = labeled_scan(scan, spend, shared, outputs, labels, k + 1).unwrap()->Ok_0;
    let rest_after = labeled_scan(scan, spend, shared, all, labels, k + 1).unwrap()->Ok_0;
    assert(before == here + rest);
    if unlabeled.len() > 0 {
        lemma_match_stays(outputs, more, output_log(spend, shared, k));
        assert(unlabeled_after == unlabeled);
    }
    if labeled.len() > 0 {
        lemma_more_outputs_at_labels(scan, spend, shared, outputs, more, labels, k, 0);
    }
    assert(here_after.len() > 0);
    assert(after == here_after + rest_after);
    if f < unlabeled.len() {
        assert(after[f] == before[f]);
    } else if f < here.len() {
        let x = f - unlabeled.len();
        lemma_more_outputs_at_labels(scan, spend, shared, outputs, more, labels, k, x);
        let g = choose|g: int| 0 <= g < labeled_after.len() && labeled_after[g] == labeled[x];
        assert(after[unlabeled_after.len() + g] == before[f]);
    } else {
        let x = f - here.len();
        assert(before[f] == rest[x]);
        lemma_more_outputs_labeled(
            scan,
            spend,
            shared,
            outputs,
            more,
            labels,
            k + 1,
            rest,
            rest_after,
            x,
        );
        let g = choose|g: int| 0 <= g < rest_after.len() && rest_after[g] == rest[x];
        assert(after[here_after.len() + g] == before[f]);
    }
}

/// Outputs that are appended to a transaction do not change what was found: a scan with labels finds
/// each of the payments again, as they were.
pub proof fn law_more_outputs(
    scanner: ScannerView,
    senders: Seq<Seq<char>>,
    outputs: Seq<Seq<char>>,
    more: Seq<Seq<char>>,
    labels: Seq<u32>,
    before: Seq<FoundPaymentView>,
    after: Seq<FoundPaymentView>,
    f: int,
)
    requires
        scanner.scan_labeled(senders, outputs, labels) == Some(Ok::<_, ErrorView>(before)),
        scanner.scan_labeled(senders, outputs + more, labels) == Some(Ok::<_, ErrorView>(after)),
        0 <= f < before.len(),
    ensures
        after.contains(before[f]),
{
    let point = point_from_hex(senders[0], "Invalid compressed pubkey: "@)->Ok_0;
    lemma_more_outputs_labeled(
        scanner.scan,
        scanner.spend(),
        scanner.shared(point),
        outputs,
        more,
        labels,
        0,
        before,
        after,
        f,
    );
}

/// The keys of a batch are those that are derived one by one.
pub proof fn law_batch_is_a_loop(
    recipient: RecipientView,
    payments: Seq<FoundPaymentView>,
    i: int,
)
    requires
        recipient.spending_keys(payments) is Ok,
        0 <= i < payments.len(),
    ensures
        recipient.spending_keys(payments)->Ok_0.len() == payments.len(),
        recipient.spending_key(payments[i]) == Ok::<_, ErrorView>(
            recipient.spending_keys(payments)->Ok_0[i],
        ),
    decreases payments.len(),
{
    if i < payments.len() - 1 {
        law_batch_is_a_loop(recipient, payments.drop_last(), i);
    } else if payments.len() > 1 {
        law_batch_is_a_loop(recipient, payments.drop_last(), 0);
    }
}

/// A batch fails with the error of its first payment that has no key.
pub proof fn law_batch_error(recipient: RecipientView, payments: Seq<FoundPaymentView>, i: int)
    requires
        0 <= i < payments.len(),
        recipient.spending_key(payments[i]) is Err,
        forall|j: int| 0 <= j < i ==> recipient.spending_key(#[trigger] payments[j]) is Ok,
    ensures
        recipient.spending_keys(payments) == Err::<Seq<nat>, _>(
            recipient.spending_key(payments[i])->Err_0,
        ),
    decreases payments.len(),
{
    if i < payments.len() - 1 {
        law_batch_error(recipient, payments.drop_last(), i);
    } else {
        lemma_batch_ok(recipient, payments.drop_last());
    }
}

/// A batch of payments that all have keys has keys.
proof fn lemma_batch_ok(recipient: RecipientView, payments: Seq<FoundPaymentView>)
    requires
        forall|j: int| 0 <= j < payments.len() ==> recipient.spending_key(#[trigger] payments[j]) is Ok,
    ensures
        recipient.spending_keys(payments) is Ok,
    decreases payments.len(),
{
    if payments.len() > 0 {
        let shorter = payments.drop_last();
        assert forall|j: int| 0 <= j < shorter.len() implies recipient.spending_key(
            #[trigger] shorter[j],
        ) is Ok by {
            assert(shorter[j] == payments[j]);
        }
        lemma_batch_ok(recipient, shorter);
    }
}

/// Every payment that a scan without labels finds can be spent by the recipient: the key that it
/// derives is the one of the output that the payment names. The payment is to the standard address.
pub proof fn law_found_plain_payments_are_spendable(
    recipient: RecipientView,
    senders: Seq<Seq<char>>,
    outputs: Seq<Seq<char>>,
    found: Seq<FoundPaymentView>,
    f: int,
)
    requires
        recipient.wf(),
        outputs.len() <= 0x1_0000_0000,
        scanner_of(recipient).scan_plain(senders, outputs) == Some(Ok::<_, ErrorView>(found)),
        0 <= f < found.len(),
    ensures
        recipient.spending_key(found[f]) is Ok,
        found[f].output_index < outputs.len(),
        lists(
            outputs[found[f].output_index as int],
            recipient.spending_key(found[f])->Ok_0,
        ),
        found[f].label is None,
        found[f].amount_sats == 0,
{
    let scanner = scanner_of(recipient);
    law_no_labels(scanner, senders, outputs);
    law_scanner_of_recipient(recipient);
    let point = point_from_hex(senders[0], "Invalid compressed pubkey: "@)->Ok_0;
    lemma_labeled_scan(
        recipient,
        scanner.shared(point),
        outputs,
        Seq::empty(),
        0,
        found,
        f,
    );
    law_found_payments_are_spendable(recipient, senders, outputs, Seq::empty(), found, f);
}

} // verus!
