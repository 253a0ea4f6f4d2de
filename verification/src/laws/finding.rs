//! What a scan returns, on every input.

use crate::bip352::{
    first_match, is_first_match, is_listed_as, label_error, label_tweak, lemma_first_match,
    match_point, output_error, output_tweak, point_from_hex,
};
use crate::bytes::be_bytes;
use crate::curve::{add_mod, compressed_point, curve_order, key_sum_text, point_log};
use crate::error::ErrorView;
use crate::laws::scanning::law_no_labels;
use crate::payment::{payment_views, FoundPayment, FoundPaymentView, ScanTransactionResult};
use crate::scanner::{
    bad_label, labeled_payments, labeled_scan, prepend, unlabeled_payment, ScannerView,
};
use crate::text::{decimal, hex_text};
use vstd::arithmetic::div_mod::lemma_add_mod_noop_right;
use vstd::prelude::*;

verus! {

/// The model of a found payment keeps all of its fields.
pub proof fn law_payment_view(payment: FoundPayment)
    ensures
        payment@.output_index == payment.output_index,
        payment@.tweak_hex == payment.tweak_hex@,
        payment@.amount_sats == payment.amount_sats,
        payment@.label == payment.label,
{
}

/// The model of what a scan found keeps every payment, in order.
pub proof fn law_result_view(result: ScanTransactionResult, f: int)
    requires
        0 <= f < result.payments@.len(),
    ensures
        result@.len() == result.payments@.len(),
        result@[f] == result.payments@[f]@,
        payment_views(result.payments@) == result@,
{
}

/// An output matches by one of two texts if it is the first that is one of them; if none is, nothing
/// matches.
pub proof fn law_first_match(outputs: Seq<Seq<char>>, full: Seq<char>, xonly: Seq<char>, i: int)
    requires
        outputs.len() <= 0x1_0000_0000,
    ensures
        0 <= i < outputs.len() && (outputs[i] == full || outputs[i] == xonly) && (forall|j: int|
            0 <= j < i ==> #[trigger] outputs[j] != full && outputs[j] != xonly) ==> first_match(
            outputs,
            full,
            xonly,
        ) == Some(i as u32),
        (forall|j: int|
            0 <= j < outputs.len() ==> #[trigger] outputs[j] != full && outputs[j] != xonly)
            <==> first_match(outputs, full, xonly) is None,
{
    if 0 <= i < outputs.len() && (outputs[i] == full || outputs[i] == xonly) && (forall|j: int|
        0 <= j < i ==> #[trigger] outputs[j] != full && outputs[j] != xonly) {
        lemma_first_match(outputs, full, xonly, i);
        let c = choose|c: int|
            c <= i && is_first_match(outputs, full, xonly, c) && first_match(outputs, full, xonly)
                == Some(c as u32);
        assert(is_listed_as(outputs[c], full, xonly));
    }
    if exists|j: int| 0 <= j < outputs.len() && (#[trigger] outputs[j] == full || outputs[j] == xonly) {
        let j = choose|j: int|
            0 <= j < outputs.len() && (#[trigger] outputs[j] == full || outputs[j] == xonly);
        lemma_first_match(outputs, full, xonly, j);
    }
    if first_match(outputs, full, xonly) is Some {
        let c = choose|c: int| is_first_match(outputs, full, xonly, c);
        assert(is_listed_as(outputs[c], full, xonly));
    }
}

/// A point matches the first output that lists it: by the text of its bytes, or by that of its bytes
/// without the first.
pub proof fn law_match_point(outputs: Seq<Seq<char>>, log: nat)
    ensures
        match_point(outputs, log) == first_match(
            outputs,
            hex_text(compressed_point(log)),
            hex_text(compressed_point(log).subrange(1, compressed_point(log).len() as int)),
        ),
{
}

/// The payment that a scan finds as the output number `k` at an address, if there is one: the output
/// that lists the point of the spend key, the tweak and the label together.
pub open spec fn found_at(
    scan: nat,
    spend: nat,
    shared: Seq<u8>,
    outputs: Seq<Seq<char>>,
    k: nat,
    label: Option<u32>,
) -> Seq<FoundPaymentView> {
    let tweak = output_tweak(shared, k);
    let shift = match label {
        None => 0nat,
        Some(m) => label_tweak(scan, m as nat),
    };
    match match_point(outputs, (spend + tweak + shift) % curve_order()) {
        None => Seq::empty(),
        Some(i) => seq![
            FoundPaymentView {
                output_index: i,
                tweak_hex: hex_text(be_bytes(tweak, 32)),
                amount_sats: 0,
                label,
            },
        ],
    }
}

/// The payments that a scan finds as the output number `k`: at the standard address first, then at
/// that of each label, in the order of the labels.
pub open spec fn found_in_step(
    scan: nat,
    spend: nat,
    shared: Seq<u8>,
    outputs: Seq<Seq<char>>,
    labels: Seq<u32>,
    k: nat,
) -> Seq<FoundPaymentView> {
    found_at(scan, spend, shared, outputs, k, None) + labels.map_values(
        |m: u32| found_at(scan, spend, shared, outputs, k, Some(m)),
    ).flatten()
}

/// Whether the output number `k` has a key at the standard address.
pub open spec fn has_key(spend: nat, shared: Seq<u8>, k: nat) -> bool {
    &&& 0 < output_tweak(shared, k) < curve_order()
    &&& (spend + output_tweak(shared, k)) % curve_order() != 0
}

/// Whether the output number `k` has a key at the address of a label.
pub open spec fn has_label_key(scan: nat, spend: nat, shared: Seq<u8>, k: nat, m: u32) -> bool {
    (spend + output_tweak(shared, k) + label_tweak(scan, m as nat)) % curve_order() != 0
}

/// Whether the output number `k` has a key at every address.
pub open spec fn has_all_keys(
    scan: nat,
    spend: nat,
    shared: Seq<u8>,
    labels: Seq<u32>,
    k: nat,
) -> bool {
    &&& has_key(spend, shared, k)
    &&& forall|x: int|
        0 <= x < labels.len() ==> has_label_key(scan, spend, shared, k, #[trigger] labels[x])
}

/// Sums may be taken one by one or at once.
proof fn lemma_shift(spend: nat, tweak: nat, shift: nat)
    ensures
        add_mod(add_mod(spend, tweak), shift) == (spend + tweak + shift) % curve_order(),
        add_mod(spend, tweak) == (spend + tweak + 0) % curve_order(),
{
    lemma_add_mod_noop_right(shift as int, (spend + tweak) as int, curve_order() as int);
}

/// What is found at the first labels, as far as they have keys.
proof fn lemma_at_labels(
    scan: nat,
    spend: nat,
    shared: Seq<u8>,
    outputs: Seq<Seq<char>>,
    labels: Seq<u32>,
    k: nat,
)
    requires
        forall|x: int|
            0 <= x < labels.len() ==> has_label_key(scan, spend, shared, k, #[trigger] labels[x]),
    ensures
        labeled_payments(scan, spend, shared, outputs, labels, k) == Ok::<_, ErrorView>(
            labels.map_values(|m: u32| found_at(scan, spend, shared, outputs, k, Some(m))).flatten(),
        ),
    decreases labels.len(),
{
    let f = |m: u32| found_at(scan, spend, shared, outputs, k, Some(m));
    if labels.len() == 0 {
        assert(labels.map_values(f).flatten() =~= Seq::empty());
    } else {
        let shorter = labels.drop_last();
        let m = labels.last();
        assert forall|x: int| 0 <= x < shorter.len() implies has_label_key(
            scan,
            spend,
            shared,
            k,
            #[trigger] shorter[x],
        ) by {
            assert(shorter[x] == labels[x]);
        }
        lemma_at_labels(scan, spend, shared, outputs, shorter, k);
        assert(has_label_key(scan, spend, shared, k, labels[labels.len() - 1]));
        lemma_shift(spend, output_tweak(shared, k), label_tweak(scan, m as nat));
        assert(labels.map_values(f) =~= shorter.map_values(f).push(f(m)));
        shorter.map_values(f).lemma_flatten_push(f(m));
        let before = shorter.map_values(f).flatten();
        assert(labeled_payments(scan, spend, shared, outputs, labels, k)->Ok_0 =~= before + f(m));
    }
}

/// What is found at the standard address.
proof fn lemma_at_standard(spend: nat, shared: Seq<u8>, outputs: Seq<Seq<char>>, k: nat, scan: nat)
    ensures
        unlabeled_payment(spend, shared, outputs, k) == found_at(
            scan,
            spend,
            shared,
            outputs,
            k,
            None,
        ),
        has_key(spend, shared, k) <==> output_error(spend, shared, k) is None,
{
    lemma_shift(spend, output_tweak(shared, k), 0);
}

/// A scan from the number `k` on goes over the steps that find something.
proof fn lemma_steps(
    scan: nat,
    spend: nat,
    shared: Seq<u8>,
    outputs: Seq<Seq<char>>,
    labels: Seq<u32>,
    k: nat,
    n: nat,
)
    requires
        k <= n <= 0x1_0000_0000,
        forall|j: nat|
            k <= j < n ==> #[trigger] has_all_keys(scan, spend, shared, labels, j)
                && found_in_step(scan, spend, shared, outputs, labels, j).len() > 0,
    ensures
        labeled_scan(scan, spend, shared, outputs, labels, k) == prepend(
            Seq::new(
                (n - k) as nat,
                |j: int| found_in_step(scan, spend, shared, outputs, labels, (k + j) as nat),
            ).flatten(),
            labeled_scan(scan, spend, shared, outputs, labels, n),
        ),
    decreases n - k,
{
    let steps = Seq::new(
        (n - k) as nat,
        |j: int| found_in_step(scan, spend, shared, outputs, labels, (k + j) as nat),
    );
    let end = labeled_scan(scan, spend, shared, outputs, labels, n);
    if k == n {
        assert(steps.flatten() =~= Seq::empty());
        if let Some(Ok(more)) = end {
            assert(Seq::empty() + more =~= more);
        }
    } else {
        assert(has_all_keys(scan, spend, shared, labels, k));
        lemma_at_standard(spend, shared, outputs, k, scan);
        lemma_at_labels(scan, spend, shared, outputs, labels, k);
        lemma_steps(scan, spend, shared, outputs, labels, k + 1, n);
        let later = Seq::new(
            (n - (k + 1)) as nat,
            |j: int| found_in_step(scan, spend, shared, outputs, labels, (k + 1 + j) as nat),
        );
        assert(steps.drop_first() =~= later) by {
            assert forall|j: int| 0 <= j < later.len() implies steps.drop_first()[j] == later[j] by {
                assert((k + (j + 1)) as nat == (k + 1 + j) as nat);
            }
        }
        let here = found_in_step(scan, spend, shared, outputs, labels, k);
        assert(steps.first() == here);
        assert(steps.flatten() == here + later.flatten());
        if let Some(Ok(more)) = end {
            assert(here + (later.flatten() + more) =~= here + later.flatten() + more);
        }
    }
}

/// Labels that all have numbers in range are not refused.
proof fn lemma_good_labels(scan: nat, labels: Seq<u32>)
    requires
        forall|x: int|
            0 <= x < labels.len() ==> 0 < label_tweak(scan, #[trigger] labels[x] as nat)
                < curve_order(),
    ensures
        bad_label(scan, labels) is None,
    decreases labels.len(),
{
    if labels.len() > 0 {
        let shorter = labels.drop_last();
        assert forall|x: int| 0 <= x < shorter.len() implies 0 < label_tweak(
            scan,
            #[trigger] shorter[x] as nat,
        ) < curve_order() by {
            assert(shorter[x] == labels[x]);
        }
        lemma_good_labels(scan, shorter);
        assert(0 < label_tweak(scan, labels[labels.len() - 1] as nat) < curve_order());
    }
}

/// A scan succeeds whatever texts the outputs are listed by. If the tweak data is the text of a
/// point, no label is bad, the keys of all numbers up to `n` exist, and `n` is the first number under
/// which nothing is found, then the scan returns what is found under the numbers below `n`, one
/// after the other.
pub proof fn law_scan_result(
    scanner: ScannerView,
    senders: Seq<Seq<char>>,
    outputs: Seq<Seq<char>>,
    labels: Seq<u32>,
    point: Seq<u8>,
    n: nat,
)
    requires
        senders.len() > 0,
        point_from_hex(senders[0], "Invalid compressed pubkey: "@) == Ok::<_, ErrorView>(point),
        forall|x: int|
            0 <= x < labels.len() ==> 0 < label_tweak(scanner.scan, #[trigger] labels[x] as nat)
                < curve_order(),
        n <= u32::MAX,
        ({
            let spend = point_log(scanner.spend_public);
            let shared = compressed_point((scanner.scan * point_log(point)) % curve_order());
            &&& forall|k: nat|
                k <= n ==> #[trigger] has_all_keys(scanner.scan, spend, shared, labels, k)
            &&& forall|k: nat|
                k < n ==> #[trigger] found_in_step(
                    scanner.scan,
                    spend,
                    shared,
                    outputs,
                    labels,
                    k,
                ).len() > 0
            &&& found_in_step(scanner.scan, spend, shared, outputs, labels, n).len() == 0
        }),
    ensures
        ({
            let spend = point_log(scanner.spend_public);
            let shared = compressed_point((scanner.scan * point_log(point)) % curve_order());
            scanner.scan_labeled(senders, outputs, labels) == Some(
                Ok::<_, ErrorView>(
                    Seq::new(
                        n,
                        |k: int|
                            found_in_step(
                                scanner.scan,
                                spend,
                                shared,
                                outputs,
                                labels,
                                k as nat,
                            ),
                    ).flatten(),
                ),
            )
        }),
{
    let scan = scanner.scan;
    let spend = point_log(scanner.spend_public);
    let shared = compressed_point((scanner.scan * point_log(point)) % curve_order());
    lemma_shared(scanner, point);
    lemma_good_labels(scan, labels);
    assert forall|j: nat| j < n implies #[trigger] has_all_keys(scan, spend, shared, labels, j)
        && found_in_step(scan, spend, shared, outputs, labels, j).len() > 0 by {}
    lemma_steps(scan, spend, shared, outputs, labels, 0, n);
    assert(has_all_keys(scan, spend, shared, labels, n));
    lemma_at_standard(spend, shared, outputs, n, scan);
    lemma_at_labels(scan, spend, shared, outputs, labels, n);
    let steps = Seq::new(
        n,
        |k: int| found_in_step(scan, spend, shared, outputs, labels, k as nat),
    );
    assert(Seq::new(
        (n - 0) as nat,
        |j: int| found_in_step(scan, spend, shared, outputs, labels, (0 + j) as nat),
    ) =~= steps);
    assert(steps.flatten() + Seq::empty() =~= steps.flatten());
}

/// The shared point is the tweak data times the scan secret.
proof fn lemma_shared(scanner: ScannerView, point: Seq<u8>)
    ensures
        scanner.shared(point) == compressed_point(
            (scanner.scan * point_log(point)) % curve_order(),
        ),
        scanner.spend() == point_log(scanner.spend_public),
{
    assert(scanner.scan * point_log(point) == point_log(point) * scanner.scan) by (nonlinear_arith);
}

/// A scan fails where a key that it looks for does not exist. If something is found under all numbers
/// below `n`, whose keys exist, the failure tells why the number `n` has no key: its tweak is no
/// secret key, its sum with the spend key is zero, or that with a label, the first such label, is.
pub proof fn law_scan_failure(
    scanner: ScannerView,
    senders: Seq<Seq<char>>,
    outputs: Seq<Seq<char>>,
    labels: Seq<u32>,
    point: Seq<u8>,
    n: nat,
    x: int,
)
    requires
        senders.len() > 0,
        point_from_hex(senders[0], "Invalid compressed pubkey: "@) == Ok::<_, ErrorView>(point),
        forall|y: int|
            0 <= y < labels.len() ==> 0 < label_tweak(scanner.scan, #[trigger] labels[y] as nat)
                < curve_order(),
        n <= u32::MAX,
        ({
            let spend = point_log(scanner.spend_public);
            let shared = compressed_point((scanner.scan * point_log(point)) % curve_order());
            forall|k: nat|
                k < n ==> #[trigger] has_all_keys(scanner.scan, spend, shared, labels, k)
                    && found_in_step(scanner.scan, spend, shared, outputs, labels, k).len() > 0
        }),
    ensures
        ({
            let spend = point_log(scanner.spend_public);
            let shared = compressed_point((scanner.scan * point_log(point)) % curve_order());
            let tweak = output_tweak(shared, n);
            &&& tweak == 0 || tweak >= curve_order() ==> scanner.scan_labeled(
                senders,
                outputs,
                labels,
            ) == Some(
                Err::<Seq<FoundPaymentView>, _>(
                    ErrorView::CryptoError("malformed or out-of-range secret key"@),
                ),
            )
            &&& 0 < tweak < curve_order() && (spend + tweak) % curve_order() == 0
                ==> scanner.scan_labeled(senders, outputs, labels) == Some(
                Err::<Seq<FoundPaymentView>, _>(ErrorView::CryptoError("bad tweak"@)),
            )
            &&& has_key(spend, shared, n) && 0 <= x < labels.len() && !has_label_key(
                scanner.scan,
                spend,
                shared,
                n,
                labels[x],
            ) && (forall|y: int|
                0 <= y < x ==> has_label_key(scanner.scan, spend, shared, n, #[trigger] labels[y]))
                ==> scanner.scan_labeled(senders, outputs, labels) == Some(
                Err::<Seq<FoundPaymentView>, _>(
                    ErrorView::CryptoError(
                        "Point addition failed for label "@ + decimal(labels[x] as nat) + ": "@
                            + "the sum of public keys was invalid or the input vector lengths was less than 1"@,
                    ),
                ),
            )
        }),
{
    let scan = scanner.scan;
    let spend = point_log(scanner.spend_public);
    let shared = compressed_point((scanner.scan * point_log(point)) % curve_order());
    let tweak = output_tweak(shared, n);
    lemma_shared(scanner, point);
    lemma_good_labels(scan, labels);
    lemma_steps(scan, spend, shared, outputs, labels, 0, n);
    lemma_at_standard(spend, shared, outputs, n, scan);
    lemma_shift(spend, tweak, 0);
    if has_key(spend, shared, n) && 0 <= x < labels.len() && !has_label_key(
        scan,
        spend,
        shared,
        n,
        labels[x],
    ) && (forall|y: int|
        0 <= y < x ==> has_label_key(scan, spend, shared, n, #[trigger] labels[y])) {
        lemma_failing_label(scan, spend, shared, outputs, labels, n, x, x + 1);
        assert(labels.take(labels.len() as int) =~= labels);
        lemma_failing_label(scan, spend, shared, outputs, labels, n, x, labels.len() as int);
    }
}

/// The search at labels fails at the first of them that has no key.
proof fn lemma_failing_label(
    scan: nat,
    spend: nat,
    shared: Seq<u8>,
    outputs: Seq<Seq<char>>,
    labels: Seq<u32>,
    k: nat,
    x: int,
    end: int,
)
    requires
        0 <= x < end <= labels.len(),
        !has_label_key(scan, spend, shared, k, labels[x]),
        forall|y: int| 0 <= y < x ==> has_label_key(scan, spend, shared, k, #[trigger] labels[y]),
    ensures
        labeled_payments(scan, spend, shared, outputs, labels.take(end), k) == Err::<
            Seq<FoundPaymentView>,
            _,
        >(
            ErrorView::CryptoError(
                "Point addition failed for label "@ + decimal(labels[x] as nat) + ": "@
                    + key_sum_text(),
            ),
        ),
    decreases end,
{
    let front = labels.take(end);
    assert(front.drop_last() =~= labels.take(end - 1));
    assert(front.last() == labels[end - 1]);
    if end == x + 1 {
        let before = labels.take(x);
        assert forall|y: int| 0 <= y < before.len() implies has_label_key(
            scan,
            spend,
            shared,
            k,
            #[trigger] before[y],
        ) by {
            assert(before[y] == labels[y]);
        }
        lemma_at_labels(scan, spend, shared, outputs, before, k);
        lemma_shift(spend, output_tweak(shared, k), label_tweak(scan, labels[x] as nat));
    } else {
        lemma_failing_label(scan, spend, shared, outputs, labels, k, x, end - 1);
    }
}

/// A scan has no outcome only if something is found under every number that a counter can hold.
pub proof fn law_scan_without_outcome(
    scanner: ScannerView,
    senders: Seq<Seq<char>>,
    outputs: Seq<Seq<char>>,
    labels: Seq<u32>,
    point: Seq<u8>,
)
    requires
        senders.len() > 0,
        point_from_hex(senders[0], "Invalid compressed pubkey: "@) == Ok::<_, ErrorView>(point),
        forall|y: int|
            0 <= y < labels.len() ==> 0 < label_tweak(scanner.scan, #[trigger] labels[y] as nat)
                < curve_order(),
        ({
            let spend = point_log(scanner.spend_public);
            let shared = compressed_point((scanner.scan * point_log(point)) % curve_order());
            forall|k: nat|
                k <= u32::MAX ==> #[trigger] has_all_keys(scanner.scan, spend, shared, labels, k)
                    && found_in_step(scanner.scan, spend, shared, outputs, labels, k).len() > 0
        }),
    ensures
        scanner.scan_labeled(senders, outputs, labels) is None,
{
    let spend = point_log(scanner.spend_public);
    let shared = compressed_point((scanner.scan * point_log(point)) % curve_order());
    lemma_shared(scanner, point);
    lemma_good_labels(scanner.scan, labels);
    lemma_steps(scanner.scan, spend, shared, outputs, labels, 0, 0x1_0000_0000);
}

/// A scan is refused before it begins if no tweak data is given, if what is given is no point, or if
/// the number of a label is no secret key: then the first such label is told.
pub proof fn law_scan_refusal(
    scanner: ScannerView,
    senders: Seq<Seq<char>>,
    outputs: Seq<Seq<char>>,
    labels: Seq<u32>,
    x: int,
)
    ensures
        senders.len() == 0 ==> {
            &&& scanner.scan_labeled(senders, outputs, labels) == Some(
                Err::<Seq<FoundPaymentView>, _>(
                    ErrorView::InvalidKey("sender_input_pubkeys_hex must not be empty"@),
                ),
            )
            &&& scanner.scan_plain(senders, outputs) == Some(
                Err::<Seq<FoundPaymentView>, _>(
                    ErrorView::InvalidKey(
                        "sender_input_pubkeys_hex must contain at least one entry (the Frigate tweak key)"@,
                    ),
                ),
            )
        },
        senders.len() > 0 ==> (point_from_hex(senders[0], "Invalid compressed pubkey: "@) matches Err(
            e,
        ) ==> {
            &&& scanner.scan_labeled(senders, outputs, labels) == Some(
                Err::<Seq<FoundPaymentView>, _>(e),
            )
            &&& scanner.scan_plain(senders, outputs) == Some(Err::<Seq<FoundPaymentView>, _>(e))
        }),
        senders.len() > 0 && point_from_hex(senders[0], "Invalid compressed pubkey: "@) is Ok && 0
            <= x < labels.len() && (forall|y: int|
            0 <= y < x ==> 0 < label_tweak(scanner.scan, #[trigger] labels[y] as nat)
                < curve_order()) && !(0 < label_tweak(scanner.scan, labels[x] as nat)
            < curve_order()) ==> scanner.scan_labeled(senders, outputs, labels) == Some(
            Err::<Seq<FoundPaymentView>, _>(
                ErrorView::CryptoError(
                    "Label "@ + decimal(labels[x] as nat) + " hash is an invalid scalar: "@
                        + "malformed or out-of-range secret key"@,
                ),
            ),
        ),
{
    if 0 <= x < labels.len() && (forall|y: int|
        0 <= y < x ==> 0 < label_tweak(scanner.scan, #[trigger] labels[y] as nat) < curve_order())
        && !(0 < label_tweak(scanner.scan, labels[x] as nat) < curve_order()) {
        lemma_first_bad_label(scanner.scan, labels, x, labels.len() as int);
        assert(labels.take(labels.len() as int) =~= labels);
        assert(label_error(labels[x] as nat) == "Label "@ + decimal(labels[x] as nat)
            + " hash is an invalid scalar: "@ + "malformed or out-of-range secret key"@);
    }
}

/// The first label whose number is out of range is the one that is told.
proof fn lemma_first_bad_label(scan: nat, labels: Seq<u32>, x: int, end: int)
    requires
        0 <= x < end <= labels.len(),
        forall|y: int|
            0 <= y < x ==> 0 < label_tweak(scan, #[trigger] labels[y] as nat) < curve_order(),
        !(0 < label_tweak(scan, labels[x] as nat) < curve_order()),
    ensures
        bad_label(scan, labels.take(end)) == Some(labels[x]),
    decreases end,
{
    let front = labels.take(end);
    assert(front.drop_last() =~= labels.take(end - 1));
    assert(front.last() == labels[end - 1]);
    if end == x + 1 {
        let before = labels.take(x);
        assert forall|y: int| 0 <= y < before.len() implies 0 < label_tweak(
            scan,
            #[trigger] before[y] as nat,
        ) < curve_order() by {
            assert(before[y] == labels[y]);
        }
        lemma_good_labels(scan, before);
    } else {
        lemma_first_bad_label(scan, labels, x, end - 1);
    }
}

/// A scan for payments to the standard address returns what is found there under the numbers below
/// `n`, if `n` is the first under which nothing is found, and the keys up to there exist.
pub proof fn law_plain_scan_result(
    scanner: ScannerView,
    senders: Seq<Seq<char>>,
    outputs: Seq<Seq<char>>,
    point: Seq<u8>,
    n: nat,
)
    requires
        senders.len() > 0,
        point_from_hex(senders[0], "Invalid compressed pubkey: "@) == Ok::<_, ErrorView>(point),
        n <= u32::MAX,
        ({
            let spend = point_log(scanner.spend_public);
            let shared = compressed_point((scanner.scan * point_log(point)) % curve_order());
            &&& forall|k: nat| k <= n ==> #[trigger] has_key(spend, shared, k)
            &&& forall|k: nat|
                k < n ==> #[trigger] found_at(scanner.scan, spend, shared, outputs, k, None).len()
                    > 0
            &&& found_at(scanner.scan, spend, shared, outputs, n, None).len() == 0
        }),
    ensures
        ({
            let spend = point_log(scanner.spend_public);
            let shared = compressed_point((scanner.scan * point_log(point)) % curve_order());
            scanner.scan_plain(senders, outputs) == Some(
                Ok::<_, ErrorView>(
                    Seq::new(
                        n,
                        |k: int|
                            found_at(scanner.scan, spend, shared, outputs, k as nat, None)[0],
                    ),
                ),
            )
        }),
{
    let scan = scanner.scan;
    let spend = point_log(scanner.spend_public);
    let shared = compressed_point((scanner.scan * point_log(point)) % curve_order());
    let none = Seq::<u32>::empty();
    law_no_labels(scanner, senders, outputs);
    assert forall|k: nat| #[trigger]
        found_in_step(scan, spend, shared, outputs, none, k) == found_at(
            scan,
            spend,
            shared,
            outputs,
            k,
            None,
        ) by {
        let at = found_at(scan, spend, shared, outputs, k, None);
        assert(none.map_values(
            |m: u32| found_at(scan, spend, shared, outputs, k, Some(m)),
        ).flatten() =~= Seq::empty());
        assert(at + Seq::empty() =~= at);
    }
    assert forall|k: nat| k <= n implies #[trigger] has_all_keys(scan, spend, shared, none, k) by {
        assert(has_key(spend, shared, k));
    }
    law_scan_result(scanner, senders, outputs, none, point, n);
    let steps = Seq::new(
        n,
        |k: int| found_in_step(scan, spend, shared, outputs, none, k as nat),
    );
    let firsts = Seq::new(
        n,
        |k: int| found_at(scan, spend, shared, outputs, k as nat, None)[0],
    );
    assert forall|k: int| 0 <= k < steps.len() implies #[trigger] steps[k] == seq![firsts[k]] by {
        let at = found_at(scan, spend, shared, outputs, k as nat, None);
        assert(at.len() > 0);
        assert(at =~= seq![at[0]]);
    }
    lemma_flatten_singles(steps, firsts);
}

/// Lists of one item each make the list of the items.
proof fn lemma_flatten_singles(steps: Seq<Seq<FoundPaymentView>>, firsts: Seq<FoundPaymentView>)
    requires
        steps.len() == firsts.len(),
        forall|k: int| 0 <= k < steps.len() ==> #[trigger] steps[k] == seq![firsts[k]],
    ensures
        steps.flatten() == firsts,
    decreases steps.len(),
{
    if steps.len() == 0 {
        assert(steps.flatten() =~= firsts);
    } else {
        let (a, b) = (steps.drop_last(), firsts.drop_last());
        assert forall|k: int| 0 <= k < a.len() implies #[trigger] a[k] == seq![b[k]] by {
            assert(a[k] == steps[k]);
        }
        lemma_flatten_singles(a, b);
        a.lemma_flatten_push(steps.last());
        assert(a.push(steps.last()) =~= steps);
        assert(steps[steps.len() - 1] == seq![firsts.last()]);
        assert(steps.flatten() =~= firsts);
    }
}

/// Whether some payments come in the order of their numbers, and under one number in the order of the
/// addresses: each has the tweak of its number, and stands at the standard address, told by -1, or at
/// that of the label at its place.
pub open spec fn are_ordered(
    shared: Seq<u8>,
    labels: Seq<u32>,
    found: Seq<FoundPaymentView>,
    numbers: Seq<nat>,
    places: Seq<int>,
) -> bool {
    &&& numbers.len() == found.len()
    &&& places.len() == found.len()
    &&& forall|f: int|
        0 <= f < found.len() ==> {
            &&& (#[trigger] found[f]).tweak_hex == hex_text(
                be_bytes(output_tweak(shared, numbers[f]), 32),
            )
            &&& -1 <= places[f] < labels.len()
            &&& found[f].label == if places[f] == -1 {
                None
            } else {
                Some(labels[places[f]])
            }
        }
    &&& forall|f: int, g: int|
        0 <= f < g < found.len() ==> #[trigger] numbers[f] < #[trigger] numbers[g] || (numbers[f]
            == numbers[g] && places[f] < places[g])
}

/// The places of what is found at the first labels.
proof fn lemma_order_at_labels(
    scan: nat,
    spend: nat,
    shared: Seq<u8>,
    outputs: Seq<Seq<char>>,
    labels: Seq<u32>,
    k: nat,
    n: int,
) -> (places: Seq<int>)
    requires
        0 <= n <= labels.len(),
        labeled_payments(scan, spend, shared, outputs, labels.take(n), k) is Ok,
    ensures
        ({
            let found = labeled_payments(scan, spend, shared, outputs, labels.take(n), k)->Ok_0;
            &&& places.len() == found.len()
            &&& forall|f: int|
                0 <= f < found.len() ==> {
                    &&& (#[trigger] found[f]).tweak_hex == hex_text(
                        be_bytes(output_tweak(shared, k), 32),
                    )
                    &&& 0 <= places[f] < n
                    &&& found[f].label == Some(labels[places[f]])
                }
            &&& forall|f: int, g: int|
                0 <= f < g < found.len() ==> #[trigger] places[f] < #[trigger] places[g]
        }),
    decreases n,
{
    if n == 0 {
        Seq::empty()
    } else {
        assert(labels.take(n).drop_last() =~= labels.take(n - 1));
        assert(labels.take(n).last() == labels[n - 1]);
        let before = lemma_order_at_labels(scan, spend, shared, outputs, labels, k, n - 1);
        let shorter = labeled_payments(scan, spend, shared, outputs, labels.take(n - 1), k)->Ok_0;
        let found = labeled_payments(scan, spend, shared, outputs, labels.take(n), k)->Ok_0;
        assert forall|f: int| 0 <= f < shorter.len() implies found[f] == shorter[f] by {}
        if found.len() == shorter.len() {
            assert(found =~= shorter);
            before
        } else {
            let places = before.push(n - 1);
            assert forall|f: int| 0 <= f < found.len() implies {
                &&& (#[trigger] found[f]).tweak_hex == hex_text(
                    be_bytes(output_tweak(shared, k), 32),
                )
                &&& 0 <= places[f] < n
                &&& found[f].label == Some(labels[places[f]])
            } by {
                if f < shorter.len() {
                    assert(found[f] == shorter[f]);
                    assert(0 <= before[f] < n - 1);
                }
            }
            assert forall|f: int, g: int| 0 <= f < g < found.len() implies #[trigger] places[f]
                < #[trigger] places[g] by {
                assert(shorter[f].label == Some(labels[before[f]]) && before[f] < n - 1);
                if g < shorter.len() {
                    assert(before[f] < before[g]);
                }
            }
            places
        }
    }
}

/// The order of what is found from the number `k` on.
proof fn lemma_order(
    scan: nat,
    spend: nat,
    shared: Seq<u8>,
    outputs: Seq<Seq<char>>,
    labels: Seq<u32>,
    k: nat,
    found: Seq<FoundPaymentView>,
) -> (order: (Seq<nat>, Seq<int>))
    requires
        labeled_scan(scan, spend, shared, outputs, labels, k) == Some(Ok::<_, ErrorView>(found)),
    ensures
        are_ordered(shared, labels, found, order.0, order.1),
        forall|f: int| 0 <= f < found.len() ==> #[trigger] order.0[f] >= k,
    decreases 0x1_0000_0000 - k,
{
    if found.len() == 0 {
        (Seq::empty(), Seq::empty())
    } else {
        let unlabeled = unlabeled_payment(spend, shared, outputs, k);
        assert(labels.take(labels.len() as int) =~= labels);
        let labeled = labeled_payments(scan, spend, shared, outputs, labels, k)->Ok_0;
        let here = unlabeled + labeled;
        let rest = labeled_scan(scan, spend, shared, outputs, labels, k + 1).unwrap()->Ok_0;
        assert(found == here + rest);
        let at = lemma_order_at_labels(
            scan,
            spend,
            shared,
            outputs,
            labels,
            k,
            labels.len() as int,
        );
        let later = lemma_order(scan, spend, shared, outputs, labels, k + 1, rest);
        let places = Seq::new(unlabeled.len(), |f: int| -1int) + at + later.1;
        let numbers = Seq::new(here.len(), |f: int| k) + later.0;
        assert forall|f: int| 0 <= f < found.len() implies {
            &&& (#[trigger] found[f]).tweak_hex == hex_text(
                be_bytes(output_tweak(shared, numbers[f]), 32),
            )
            &&& -1 <= places[f] < labels.len()
            &&& found[f].label == if places[f] == -1 {
                None
            } else {
                Some(labels[places[f]])
            }
            &&& numbers[f] >= k
        } by {
            if f < unlabeled.len() {
                assert(found[f] == unlabeled[f]);
            } else if f < here.len() {
                assert(found[f] == labeled[f - unlabeled.len()]);
            } else {
                assert(found[f] == rest[f - here.len()]);
                assert(later.0[f - here.len()] >= k + 1);
            }
        }
        assert forall|f: int, g: int| 0 <= f < g < found.len() implies #[trigger] numbers[f]
            < #[trigger] numbers[g] || (numbers[f] == numbers[g] && places[f] < places[g]) by {
            if g >= here.len() {
                let y = g - here.len();
                assert(numbers[g] == later.0[y]);
                assert(places[g] == later.1[y]);
                assert(later.0[y] >= k + 1);
                if f >= here.len() {
                    let x = f - here.len();
                    assert(later.0[x] < later.0[y] || (later.0[x] == later.0[y] && later.1[x]
                        < later.1[y]));
                }
            } else if f >= unlabeled.len() {
                assert(at[f - unlabeled.len()] < at[g - unlabeled.len()]);
            } else {
                assert(unlabeled.len() <= 1);
                assert(labeled[g - unlabeled.len()].label is Some);
            }
        }
        assert forall|f: int| 0 <= f < found.len() implies #[trigger] numbers[f] >= k by {
            assert(found[f].tweak_hex == found[f].tweak_hex);
        }
        (numbers, places)
    }
}

/// What a scan finds comes in the order of the numbers, and under one number the standard address comes
/// first and the labels follow in the order in which they were given; no address is reported twice
/// under one number.
pub proof fn law_found_in_order(
    scanner: ScannerView,
    senders: Seq<Seq<char>>,
    outputs: Seq<Seq<char>>,
    labels: Seq<u32>,
    point: Seq<u8>,
    shared: Seq<u8>,
    found: Seq<FoundPaymentView>,
) -> (order: (Seq<nat>, Seq<int>))
    requires
        senders.len() > 0,
        point_from_hex(senders[0], "Invalid compressed pubkey: "@) == Ok::<_, ErrorView>(point),
        shared == compressed_point((scanner.scan * point_log(point)) % curve_order()),
        scanner.scan_labeled(senders, outputs, labels) == Some(Ok::<_, ErrorView>(found)),
    ensures
        are_ordered(shared, labels, found, order.0, order.1),
{
    lemma_shared(scanner, point);
    lemma_order(scanner.scan, scanner.spend(), shared, outputs, labels, 0, found)
}

} // verus!
