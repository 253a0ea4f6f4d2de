//! A scan of the transaction that a sender made finds the payments to the recipient, and no others.

use crate::bip352::{is_listed_as, label_tweak, match_point, output_error};
use crate::curve::{compressed_point, is_point, is_secret, lemma_log_of_point};
use crate::error::ErrorView;
use crate::laws::round_trip::{law_hex_round_trip, law_scanner_of_recipient, scanner_of};
use crate::laws::scanning::{labeled_output_log, law_no_labels, lemma_match_point, lists};
use crate::laws::sending::{
    is_in_transaction, is_own_address, law_tweak_data_of_sender, lemma_hit,
};
use crate::payment::{FoundPaymentView, InputView, OutputView};
use crate::recipient::RecipientView;
use crate::scanner::{
    bad_label, labeled_payments, labeled_scan, payment_at, unlabeled_payment,
};
use crate::send::{
    can_count, counts_fit, has_scan, lemma_sent_outputs_error, outputs_of, same_scan, sender_secret,
    sent_outputs, tweak_data_of,
};
use vstd::prelude::*;

verus! {

/// The positions of the addresses with the given scan key, in ascending order.
pub open spec fn positions(addresses: Seq<Seq<char>>, scan: Seq<u8>) -> Seq<int>
    decreases addresses.len(),
{
    if addresses.len() == 0 {
        Seq::empty()
    } else {
        let earlier = positions(addresses.drop_last(), scan);
        if has_scan(addresses.last(), scan) {
            earlier.push(addresses.len() - 1)
        } else {
            earlier
        }
    }
}

/// The position with the number `k` is in range, has the scan key, and comes after `k` others.
proof fn lemma_position(addresses: Seq<Seq<char>>, scan: Seq<u8>, k: int)
    requires
        0 <= k < positions(addresses, scan).len(),
    ensures
        0 <= positions(addresses, scan)[k] < addresses.len(),
        has_scan(addresses[positions(addresses, scan)[k]], scan),
        same_scan(addresses.take(positions(addresses, scan)[k]), scan) == k,
        positions(addresses, scan).len() == same_scan(addresses, scan),
    decreases addresses.len(),
{
    let shorter = addresses.drop_last();
    lemma_positions_len(addresses, scan);
    lemma_positions_len(shorter, scan);
    if k < positions(shorter, scan).len() {
        lemma_position(shorter, scan, k);
        let p = positions(addresses, scan)[k];
        assert(shorter.take(p) =~= addresses.take(p));
    } else {
        assert(addresses.take(addresses.len() - 1) =~= shorter);
    }
}

/// There are as many positions as addresses with the scan key.
proof fn lemma_positions_len(addresses: Seq<Seq<char>>, scan: Seq<u8>)
    ensures
        positions(addresses, scan).len() == same_scan(addresses, scan),
    decreases addresses.len(),
{
    if addresses.len() > 0 {
        lemma_positions_len(addresses.drop_last(), scan);
    }
}

/// An address with the scan key stands at the position with the number of those before it.
proof fn lemma_position_of(addresses: Seq<Seq<char>>, scan: Seq<u8>, i: int)
    requires
        0 <= i < addresses.len(),
        has_scan(addresses[i], scan),
    ensures
        same_scan(addresses.take(i), scan) < positions(addresses, scan).len(),
        positions(addresses, scan)[same_scan(addresses.take(i), scan) as int] == i,
    decreases addresses.len(),
{
    let shorter = addresses.drop_last();
    lemma_positions_len(addresses, scan);
    lemma_positions_len(shorter, scan);
    if i < shorter.len() {
        lemma_position_of(shorter, scan, i);
        assert(shorter.take(i) =~= addresses.take(i));
    } else {
        assert(addresses.take(i) =~= shorter);
    }
}

/// The positions are those of the addresses with the scan key, each once, in ascending order.
pub proof fn law_positions(addresses: Seq<Seq<char>>, scan: Seq<u8>)
    ensures
        positions(addresses, scan).len() == same_scan(addresses, scan),
        forall|i: int|
            #[trigger] positions(addresses, scan).contains(i) <==> 0 <= i < addresses.len()
                && has_scan(addresses[i], scan),
        forall|f: int, g: int|
            0 <= f < g < positions(addresses, scan).len() ==> positions(addresses, scan)[f]
                < positions(addresses, scan)[g],
{
    let all = positions(addresses, scan);
    lemma_positions_len(addresses, scan);
    assert forall|i: int|
        #[trigger] all.contains(i) <==> 0 <= i < addresses.len() && has_scan(addresses[i], scan) by {
        if all.contains(i) {
            let f = choose|f: int| 0 <= f < all.len() && all[f] == i;
            lemma_position(addresses, scan, f);
        }
        if 0 <= i < addresses.len() && has_scan(addresses[i], scan) {
            lemma_position_of(addresses, scan, i);
        }
    }
    assert forall|f: int, g: int| 0 <= f < g < all.len() implies all[f] < all[g] by {
        lemma_position(addresses, scan, f);
        lemma_position(addresses, scan, g);
        if all[g] < all[f] {
            lemma_numbers_ascend(addresses, scan, all[g], all[f]);
        }
    }
}

/// No fewer addresses with a scan key come before a later address.
proof fn lemma_numbers_ascend(addresses: Seq<Seq<char>>, scan: Seq<u8>, i: int, j: int)
    requires
        0 <= i <= j <= addresses.len(),
    ensures
        same_scan(addresses.take(i), scan) <= same_scan(addresses.take(j), scan),
    decreases j,
{
    if i < j {
        assert(addresses.take(j).drop_last() =~= addresses.take(j - 1));
        lemma_numbers_ascend(addresses, scan, i, j - 1);
    }
}

/// Whether a scan looks at the address of a label, or at the standard address.
pub open spec fn is_scanned(labels: Seq<u32>, label: Option<u32>) -> bool {
    label matches Some(m) ==> labels.contains(m)
}

/// Whether nothing looks alike by chance: an output that lists the key which the scan expects under
/// some number at some address of the recipient is the one that pays to this address under this
/// number, and no two labels have one tweak.
pub open spec fn no_coincidence(
    recipient: RecipientView,
    labels: Seq<u32>,
    shared: Seq<u8>,
    addresses: Seq<Seq<char>>,
    listed: Seq<Seq<char>>,
) -> bool {
    &&& forall|i: int, k: nat, label: Option<u32>|
        0 <= i < listed.len() && k <= u32::MAX && is_scanned(labels, label) && #[trigger] lists(
            listed[i],
            labeled_output_log(recipient, shared, k, label),
        ) ==> {
            &&& is_own_address(recipient, labels, addresses[i], label)
            &&& same_scan(addresses.take(i), recipient.scan_public()) == k
        }
    &&& forall|a: u32, b: u32|
        labels.contains(a) && labels.contains(b) && a != b ==> #[trigger] label_tweak(
            recipient.scan,
            a as nat,
        ) != #[trigger] label_tweak(recipient.scan, b as nat)
}

/// Whether the keys that the scan expects exist: those of the numbers up to `n`, at the standard
/// address and at those of the labels.
pub open spec fn keys_exist(
    recipient: RecipientView,
    labels: Seq<u32>,
    shared: Seq<u8>,
    n: nat,
) -> bool {
    &&& bad_label(recipient.scan, labels) is None
    &&& forall|k: nat| k <= n ==> #[trigger] output_error(recipient.spend, shared, k) is None
    &&& forall|k: nat, m: u32|
        k <= n && labels.contains(m) ==> #[trigger] labeled_output_log(
            recipient,
            shared,
            k,
            Some(m),
        ) != 0
}

/// The label of an own address.
pub open spec fn own_label(
    recipient: RecipientView,
    labels: Seq<u32>,
    address: Seq<char>,
) -> Option<u32> {
    choose|label: Option<u32>| is_own_address(recipient, labels, address, label)
}

/// Whether the listed output at `x` is the one that pays to the address at `i`, which is that of a
/// label, under the number `k`.
pub open spec fn is_paid_at(
    recipient: RecipientView,
    labels: Seq<u32>,
    addresses: Seq<Seq<char>>,
    places: Seq<int>,
    x: int,
    k: nat,
    label: Option<u32>,
    i: int,
) -> bool {
    &&& 0 <= i < addresses.len()
    &&& places[i] == x
    &&& is_own_address(recipient, labels, addresses[i], label)
    &&& same_scan(addresses.take(i), recipient.scan_public()) == k
}

/// Whether nothing looks alike by chance, in a list in which the output to the address at `i` stands at
/// `places[i]`, and others may stand between them.
pub open spec fn no_coincidence_at(
    recipient: RecipientView,
    labels: Seq<u32>,
    shared: Seq<u8>,
    addresses: Seq<Seq<char>>,
    listed: Seq<Seq<char>>,
    places: Seq<int>,
) -> bool {
    &&& forall|x: int, k: nat, label: Option<u32>|
        0 <= x < listed.len() && k <= u32::MAX && is_scanned(labels, label) && #[trigger] lists(
            listed[x],
            labeled_output_log(recipient, shared, k, label),
        ) ==> exists|i: int|
            is_paid_at(recipient, labels, addresses, places, x, k, label, i)
    &&& forall|a: u32, b: u32|
        labels.contains(a) && labels.contains(b) && a != b ==> #[trigger] label_tweak(
            recipient.scan,
            a as nat,
        ) != #[trigger] label_tweak(recipient.scan, b as nat)
}

/// Whether a list holds some outputs: each at its place, by all of its 66 digits or by all but the
/// first two.
pub open spec fn is_listing(
    outputs: Seq<OutputView>,
    listed: Seq<Seq<char>>,
    places: Seq<int>,
) -> bool {
    &&& listed.len() <= 0x1_0000_0000
    &&& places.len() == outputs.len()
    &&& forall|i: int|
        0 <= i < outputs.len() ==> {
            &&& 0 <= #[trigger] places[i] < listed.len()
            &&& listed[places[i]] == outputs[i].pubkey_hex || listed[places[i]]
                == outputs[i].pubkey_hex.subrange(2, 66)
        }
}

/// The payment to the recipient that has the number `k`, in a list.
pub open spec fn placed_payment(
    recipient: RecipientView,
    labels: Seq<u32>,
    shared: Seq<u8>,
    addresses: Seq<Seq<char>>,
    places: Seq<int>,
    k: nat,
) -> FoundPaymentView {
    let p = positions(addresses, recipient.scan_public())[k as int];
    payment_at(shared, k, places[p] as u32, own_label(recipient, labels, addresses[p]))
}

/// The payments to the recipient from the number `k` on, in a list.
pub open spec fn placed_payments(
    recipient: RecipientView,
    labels: Seq<u32>,
    shared: Seq<u8>,
    addresses: Seq<Seq<char>>,
    places: Seq<int>,
    k: nat,
) -> Seq<FoundPaymentView> {
    Seq::new(
        (same_scan(addresses, recipient.scan_public()) - k) as nat,
        |f: int| placed_payment(recipient, labels, shared, addresses, places, (k + f) as nat),
    )
}

/// The places of outputs that are listed as they are.
pub open spec fn in_order(n: nat) -> Seq<int> {
    Seq::new(n, |i: int| i)
}

/// The payment to the recipient that has the number `k`.
pub open spec fn own_payment(
    recipient: RecipientView,
    labels: Seq<u32>,
    shared: Seq<u8>,
    addresses: Seq<Seq<char>>,
    k: nat,
) -> FoundPaymentView {
    placed_payment(recipient, labels, shared, addresses, in_order(addresses.len()), k)
}

/// The payments to the recipient from the number `k` on.
pub open spec fn own_payments(
    recipient: RecipientView,
    labels: Seq<u32>,
    shared: Seq<u8>,
    addresses: Seq<Seq<char>>,
    k: nat,
) -> Seq<FoundPaymentView> {
    Seq::new(
        (same_scan(addresses, recipient.scan_public()) - k) as nat,
        |f: int| own_payment(recipient, labels, shared, addresses, (k + f) as nat),
    )
}

/// An address is that of one label only.
proof fn lemma_one_label(
    recipient: RecipientView,
    labels: Seq<u32>,
    address: Seq<char>,
    a: Option<u32>,
    b: Option<u32>,
)
    requires
        recipient.wf(),
        forall|x: u32, y: u32|
            labels.contains(x) && labels.contains(y) && x != y ==> #[trigger] label_tweak(
                recipient.scan,
                x as nat,
            ) != #[trigger] label_tweak(recipient.scan, y as nat),
        is_own_address(recipient, labels, address, a),
        is_own_address(recipient, labels, address, b),
    ensures
        a == b,
{
    if a != b {
        let (x, y) = if a is Some {
            (a, b)
        } else {
            (b, a)
        };
        let m = x.unwrap();
        lemma_log_of_point(recipient.labeled_spend(m as nat));
        match y {
            None => {
                lemma_log_of_point(recipient.spend);
                assert(recipient.labeled_spend(m as nat) == recipient.spend);
            },
            Some(j) => {
                lemma_log_of_point(recipient.labeled_spend(j as nat));
                assert(recipient.labeled_spend(m as nat) == recipient.labeled_spend(j as nat));
                assert(label_tweak(recipient.scan, m as nat) != label_tweak(
                    recipient.scan,
                    j as nat,
                ));
            },
        }
    }
}

/// What is found at the labels if at most one of them matches: the payment at that label, or nothing.
proof fn lemma_single_label(
    recipient: RecipientView,
    labels: Seq<u32>,
    shared: Seq<u8>,
    listed: Seq<Seq<char>>,
    k: nat,
    label: Option<u32>,
    n: int,
)
    requires
        labels.no_duplicates(),
        0 <= n <= labels.len(),
        forall|m: u32|
            labels.contains(m) ==> #[trigger] labeled_output_log(
                recipient,
                shared,
                k,
                Some(m),
            ) != 0,
        forall|m: u32|
            labels.contains(m) && label != Some(m) ==> match_point(
                listed,
                #[trigger] labeled_output_log(recipient, shared, k, Some(m)),
            ) is None,
        label is Some ==> match_point(
            listed,
            labeled_output_log(recipient, shared, k, label),
        ) is Some,
    ensures
        labeled_payments(
            recipient.scan,
            recipient.spend,
            shared,
            listed,
            labels.take(n),
            k,
        ) == Ok::<_, ErrorView>(
            if label is Some && labels.take(n).contains(label.unwrap()) {
                seq![
                    payment_at(
                        shared,
                        k,
                        match_point(
                            listed,
                            labeled_output_log(recipient, shared, k, label),
                        ).unwrap(),
                        label,
                    ),
                ]
            } else {
                Seq::<FoundPaymentView>::empty()
            },
        ),
    decreases n,
{
    if n > 0 {
        let m = labels[n - 1];
        let shorter = labels.take(n - 1);
        lemma_single_label(recipient, labels, shared, listed, k, label, n - 1);
        assert(labels.take(n).drop_last() =~= shorter);
        assert(labels.take(n).last() == m);
        assert(labels.contains(m));
        assert(labeled_output_log(recipient, shared, k, Some(m)) != 0);
        assert(labels.take(n) =~= shorter.push(m));
        if label == Some(m) {
            assert(!shorter.contains(m)) by {
                if shorter.contains(m) {
                    let x = choose|x: int| 0 <= x < shorter.len() && shorter[x] == m;
                    assert(labels[x] == labels[n - 1]);
                }
            }
            assert(labels.take(n)[n - 1] == m);
        } else if label is Some {
            let l = label.unwrap();
            if shorter.contains(l) {
                let x = choose|x: int| 0 <= x < shorter.len() && shorter[x] == l;
                assert(labels.take(n)[x] == l);
            } else if labels.take(n).contains(l) {
                let x = choose|x: int| 0 <= x < n && labels.take(n)[x] == l;
                assert(shorter[x] == l);
            }
        }
    }
}

/// What a sender made: the outputs to some addresses, as a transaction lists them.
pub open spec fn is_transaction(
    recipient: RecipientView,
    labels: Seq<u32>,
    secret: nat,
    addresses: Seq<Seq<char>>,
    outputs: Seq<OutputView>,
) -> bool {
    &&& recipient.wf()
    &&& labels.no_duplicates()
    &&& is_secret(secret)
    &&& is_point(compressed_point(secret))
    &&& sent_outputs(secret, addresses) == Ok::<_, ErrorView>(outputs)
    &&& outputs.len() == addresses.len() <= 0x1_0000_0000
    &&& forall|i: int| 0 <= i < outputs.len() ==> (#[trigger] outputs[i]).pubkey_hex.len() == 66
    &&& forall|i: int|
        0 <= i < addresses.len() && has_scan(#[trigger] addresses[i], recipient.scan_public())
            ==> exists|label: Option<u32>| is_own_address(recipient, labels, addresses[i], label)
    &&& counts_fit(secret, addresses)
}

/// The keys of some outputs.
pub open spec fn keys_of(outputs: Seq<OutputView>) -> Seq<Seq<char>> {
    Seq::new(outputs.len(), |i: int| outputs[i].pubkey_hex)
}

/// Where the scan finds the key that it expects under the number `k` at some address: if this is the
/// address of the payment with that number, at the position of the payment, otherwise nowhere.
proof fn lemma_expected_key(
    recipient: RecipientView,
    labels: Seq<u32>,
    secret: nat,
    addresses: Seq<Seq<char>>,
    outputs: Seq<OutputView>,
    listed: Seq<Seq<char>>,
    places: Seq<int>,
    k: nat,
    label: Option<u32>,
)
    requires
        is_transaction(recipient, labels, secret, addresses, outputs),
        is_listing(outputs, listed, places),
        no_coincidence_at(
            recipient,
            labels,
            scanner_of(recipient).shared(compressed_point(secret)),
            addresses,
            listed,
            places,
        ),
        is_scanned(labels, label),
        k <= same_scan(addresses, recipient.scan_public()),
    ensures
        ({
            let scan = recipient.scan_public();
            let shared = scanner_of(recipient).shared(compressed_point(secret));
            let log = labeled_output_log(recipient, shared, k, label);
            let p = positions(addresses, scan)[k as int];
            &&& positions(addresses, scan).len() == same_scan(addresses, scan)
            &&& match_point(listed, log) == if k < same_scan(addresses, scan) && label
                == own_label(recipient, labels, addresses[p]) {
                Some(places[p] as u32)
            } else {
                None
            }
            &&& k < same_scan(addresses, scan) ==> {
                &&& 0 <= p < addresses.len()
                &&& is_own_address(
                    recipient,
                    labels,
                    addresses[p],
                    own_label(recipient, labels, addresses[p]),
                )
            }
        }),
{
    let scan = recipient.scan_public();
    let n = same_scan(addresses, scan);
    let shared = scanner_of(recipient).shared(compressed_point(secret));
    let log = labeled_output_log(recipient, shared, k, label);
    let p = positions(addresses, scan)[k as int];
    let own = own_label(recipient, labels, addresses[p]);
    lemma_positions_len(addresses, scan);
    lemma_countable(recipient, labels, secret, addresses, outputs);
    if k < n {
        lemma_position(addresses, scan, k as int);
        assert(is_own_address(recipient, labels, addresses[p], own));
    }
    if match_point(listed, log) is Some {
        let x = match_point(listed, log).unwrap() as int;
        lemma_match_point(listed, log);
        assert(lists(listed[x], log));
        let i = choose|i: int|
            is_paid_at(recipient, labels, addresses, places, x, k, label, i);
        assert(is_paid_at(recipient, labels, addresses, places, x, k, label, i));
        assert(has_scan(addresses[i], scan));
        lemma_position_of(addresses, scan, i);
        assert(k < n && i == p);
        lemma_one_label(recipient, labels, addresses[p], label, own);
    } else if k < n && label == own {
        assert(outputs[p].pubkey_hex.len() == 66);
        let text = outputs[p].pubkey_hex;
        assert(text.skip(2) =~= text.subrange(2, 66));
        assert(is_listed_as(listed[places[p]], text, text.skip(2)));
        assert(is_in_transaction(listed, outputs[p].pubkey_hex));
        lemma_hit(recipient, labels, secret, addresses, outputs, listed, p, label);
        assert(false);
    }
}

/// The payments to the recipient can be counted.
proof fn lemma_countable(
    recipient: RecipientView,
    labels: Seq<u32>,
    secret: nat,
    addresses: Seq<Seq<char>>,
    outputs: Seq<OutputView>,
)
    requires
        is_transaction(recipient, labels, secret, addresses, outputs),
    ensures
        same_scan(addresses, recipient.scan_public()) <= u32::MAX,
{
    let scan = recipient.scan_public();
    let n = same_scan(addresses, scan);
    lemma_positions_len(addresses, scan);
    if n > 0 {
        lemma_position(addresses, scan, n - 1);
        let p = positions(addresses, scan)[n - 1];
        assert(can_count(secret, addresses, p));
        if sent_outputs(secret, addresses.take(p)) is Err {
            lemma_sent_outputs_error(secret, addresses, p);
        }
    }
}

/// A scan from the number `k` on finds the payments to the recipient from there on.
proof fn lemma_exact_scan(
    recipient: RecipientView,
    labels: Seq<u32>,
    secret: nat,
    addresses: Seq<Seq<char>>,
    outputs: Seq<OutputView>,
    listed: Seq<Seq<char>>,
    places: Seq<int>,
    k: nat,
)
    requires
        is_transaction(recipient, labels, secret, addresses, outputs),
        is_listing(outputs, listed, places),
        no_coincidence_at(
            recipient,
            labels,
            scanner_of(recipient).shared(compressed_point(secret)),
            addresses,
            listed,
            places,
        ),
        keys_exist(
            recipient,
            labels,
            scanner_of(recipient).shared(compressed_point(secret)),
            same_scan(addresses, recipient.scan_public()),
        ),
        k <= same_scan(addresses, recipient.scan_public()),
    ensures
        ({
            let shared = scanner_of(recipient).shared(compressed_point(secret));
            labeled_scan(
                recipient.scan,
                recipient.spend,
                shared,
                listed,
                labels,
                k,
            ) == Some(
                Ok::<_, ErrorView>(placed_payments(recipient, labels, shared, addresses, places, k)),
            )
        }),
    decreases same_scan(addresses, recipient.scan_public()) - k,
{
    let scan = recipient.scan_public();
    let n = same_scan(addresses, scan);
    let shared = scanner_of(recipient).shared(compressed_point(secret));
    let found = placed_payments(recipient, labels, shared, addresses, places, k);
    let p = positions(addresses, scan)[k as int];
    let own: Option<u32> = if k < n {
        own_label(recipient, labels, addresses[p])
    } else {
        None
    };
    lemma_countable(recipient, labels, secret, addresses, outputs);
    assert(output_error(recipient.spend, shared, k) is None);
    lemma_expected_key(recipient, labels, secret, addresses, outputs, listed, places, k, None);
    assert forall|m: u32| labels.contains(m) && own != Some(m) implies match_point(
        listed,
        #[trigger] labeled_output_log(recipient, shared, k, Some(m)),
    ) is None by {
        lemma_expected_key(recipient, labels, secret, addresses, outputs, listed, places, k, Some(m));
    }
    if own is Some {
        lemma_expected_key(recipient, labels, secret, addresses, outputs, listed, places, k, own);
    }
    lemma_single_label(recipient, labels, shared, listed, k, own, labels.len() as int);
    assert(labels.take(labels.len() as int) =~= labels);
    let here = unlabeled_payment(recipient.spend, shared, listed, k) + labeled_payments(
        recipient.scan,
        recipient.spend,
        shared,
        listed,
        labels,
        k,
    )->Ok_0;
    if k < n {
        let payment = placed_payment(recipient, labels, shared, addresses, places, k);
        assert(here =~= seq![payment]);
        lemma_exact_scan(
            recipient,
            labels,
            secret,
            addresses,
            outputs,
            listed,
            places,
            k + 1,
        );
        let rest = placed_payments(recipient, labels, shared, addresses, places, k + 1);
        assert(found =~= here + rest) by {
            assert forall|f: int| 1 <= f < found.len() implies found[f] == rest[f - 1] by {
                assert((k + 1 + (f - 1)) as nat == (k + f) as nat);
            }
        }
    } else {
        assert(here =~= Seq::empty());
        assert(found =~= Seq::empty());
    }
}

/// The point that recipient and sender share.
pub open spec fn shared_with_sender(recipient: RecipientView, inputs: Seq<InputView>) -> Seq<u8> {
    scanner_of(recipient).shared(compressed_point(sender_secret(inputs, true)->Ok_0))
}

/// One scan finds the payments to a recipient exactly, barring coincidences, however the outputs are
/// listed: by their full or by their x-only keys, in any order, with others among them. The payments
/// are found by their numbers, each once, at the place of its output and with its label, and no other
/// place is found.
pub proof fn law_listed_scan_is_exact(
    recipient: RecipientView,
    labels: Seq<u32>,
    inputs: Seq<InputView>,
    addresses: Seq<Seq<char>>,
    outputs: Seq<OutputView>,
    listed: Seq<Seq<char>>,
    places: Seq<int>,
) -> (found: Seq<FoundPaymentView>)
    requires
        outputs_of(inputs, addresses) == Ok::<_, ErrorView>(outputs),
        is_transaction(
            recipient,
            labels,
            sender_secret(inputs, true)->Ok_0,
            addresses,
            outputs,
        ),
        is_listing(outputs, listed, places),
        no_coincidence_at(
            recipient,
            labels,
            shared_with_sender(recipient, inputs),
            addresses,
            listed,
            places,
        ),
        keys_exist(
            recipient,
            labels,
            shared_with_sender(recipient, inputs),
            same_scan(addresses, recipient.scan_public()),
        ),
    ensures
        scanner_of(recipient).scan_labeled(
            seq![tweak_data_of(inputs)->Ok_0],
            listed,
            labels,
        ) == Some(Ok::<_, ErrorView>(found)),
        found.len() == positions(addresses, recipient.scan_public()).len(),
        forall|f: int|
            0 <= f < found.len() ==> (#[trigger] found[f]).output_index == places[positions(
                addresses,
                recipient.scan_public(),
            )[f]],
        forall|f: int|
            0 <= f < found.len() ==> is_own_address(
                recipient,
                labels,
                addresses[positions(addresses, recipient.scan_public())[f]],
                (#[trigger] found[f]).label,
            ),
        found == placed_payments(
            recipient,
            labels,
            shared_with_sender(recipient, inputs),
            addresses,
            places,
            0,
        ),
{
    let secret = sender_secret(inputs, true)->Ok_0;
    let shared = shared_with_sender(recipient, inputs);
    let scan = recipient.scan_public();
    law_tweak_data_of_sender(inputs, addresses);
    law_scanner_of_recipient(recipient);
    law_hex_round_trip(compressed_point(secret));
    lemma_exact_scan(recipient, labels, secret, addresses, outputs, listed, places, 0);
    let found = placed_payments(recipient, labels, shared, addresses, places, 0);
    lemma_positions_len(addresses, scan);
    assert forall|f: int| 0 <= f < found.len() implies {
        &&& (#[trigger] found[f]).output_index == places[positions(addresses, scan)[f]]
        &&& is_own_address(
            recipient,
            labels,
            addresses[positions(addresses, scan)[f]],
            found[f].label,
        )
    } by {
        lemma_expected_key(
            recipient,
            labels,
            secret,
            addresses,
            outputs,
            listed,
            places,
            f as nat,
            None,
        );
        let p = positions(addresses, scan)[f];
        assert(0 <= places[p] < listed.len());
    }
    found
}

/// One scan finds the payments to a recipient exactly, barring coincidences: the position of every
/// output that pays to the standard address or to that of a label is found once, in ascending order
/// and with its label, and no other position is found. What the transaction pays to others does not
/// matter.
pub proof fn law_scan_is_exact(
    recipient: RecipientView,
    labels: Seq<u32>,
    inputs: Seq<InputView>,
    addresses: Seq<Seq<char>>,
    outputs: Seq<OutputView>,
) -> (found: Seq<FoundPaymentView>)
    requires
        outputs_of(inputs, addresses) == Ok::<_, ErrorView>(outputs),
        is_transaction(
            recipient,
            labels,
            sender_secret(inputs, true)->Ok_0,
            addresses,
            outputs,
        ),
        no_coincidence(
            recipient,
            labels,
            shared_with_sender(recipient, inputs),
            addresses,
            keys_of(outputs),
        ),
        keys_exist(
            recipient,
            labels,
            shared_with_sender(recipient, inputs),
            same_scan(addresses, recipient.scan_public()),
        ),
    ensures
        scanner_of(recipient).scan_labeled(
            seq![tweak_data_of(inputs)->Ok_0],
            keys_of(outputs),
            labels,
        ) == Some(Ok::<_, ErrorView>(found)),
        found.len() == positions(addresses, recipient.scan_public()).len(),
        forall|f: int|
            0 <= f < found.len() ==> (#[trigger] found[f]).output_index == positions(
                addresses,
                recipient.scan_public(),
            )[f],
        forall|f: int|
            0 <= f < found.len() ==> is_own_address(
                recipient,
                labels,
                addresses[found[f].output_index as int],
                (#[trigger] found[f]).label,
            ),
        found == own_payments(
            recipient,
            labels,
            shared_with_sender(recipient, inputs),
            addresses,
            0,
        ),
{
    let shared = shared_with_sender(recipient, inputs);
    let scan = recipient.scan_public();
    let listed = keys_of(outputs);
    let places = in_order(addresses.len());
    assert(is_listing(outputs, listed, places)) by {
        assert forall|i: int| 0 <= i < outputs.len() implies {
            &&& 0 <= #[trigger] places[i] < listed.len()
            &&& listed[places[i]] == outputs[i].pubkey_hex || listed[places[i]]
                == outputs[i].pubkey_hex.subrange(2, 66)
        } by {
            assert(places[i] == i);
        }
    }
    assert forall|x: int, k: nat, label: Option<u32>|
        0 <= x < listed.len() && k <= u32::MAX && is_scanned(labels, label) && #[trigger] lists(
            listed[x],
            labeled_output_log(recipient, shared, k, label),
        ) implies exists|i: int|
        is_paid_at(recipient, labels, addresses, places, x, k, label, i) by {
        assert(is_paid_at(recipient, labels, addresses, places, x, k, label, x));
    }
    let found = law_listed_scan_is_exact(
        recipient,
        labels,
        inputs,
        addresses,
        outputs,
        listed,
        places,
    );
    law_positions(addresses, scan);
    assert forall|f: int| 0 <= f < found.len() implies {
        &&& (#[trigger] found[f]).output_index == positions(addresses, scan)[f]
        &&& is_own_address(
            recipient,
            labels,
            addresses[found[f].output_index as int],
            found[f].label,
        )
    } by {
        let p = positions(addresses, scan)[f];
        assert(positions(addresses, scan).contains(p));
        assert(places[p] == p);
    }
    assert(found =~= own_payments(recipient, labels, shared, addresses, 0));
    found
}

/// A scan without labels finds the payments to the standard address exactly, barring coincidences:
/// their positions come out in ascending order, none missed and none extra.
pub proof fn law_plain_scan_is_exact(
    recipient: RecipientView,
    inputs: Seq<InputView>,
    addresses: Seq<Seq<char>>,
    outputs: Seq<OutputView>,
) -> (found: Seq<FoundPaymentView>)
    requires
        outputs_of(inputs, addresses) == Ok::<_, ErrorView>(outputs),
        is_transaction(
            recipient,
            Seq::empty(),
            sender_secret(inputs, true)->Ok_0,
            addresses,
            outputs,
        ),
        no_coincidence(
            recipient,
            Seq::empty(),
            shared_with_sender(recipient, inputs),
            addresses,
            keys_of(outputs),
        ),
        keys_exist(
            recipient,
            Seq::empty(),
            shared_with_sender(recipient, inputs),
            same_scan(addresses, recipient.scan_public()),
        ),
    ensures
        scanner_of(recipient).scan_plain(
            seq![tweak_data_of(inputs)->Ok_0],
            keys_of(outputs),
        ) == Some(Ok::<_, ErrorView>(found)),
        found.len() == positions(addresses, recipient.scan_public()).len(),
        forall|f: int|
            0 <= f < found.len() ==> (#[trigger] found[f]).output_index == positions(
                addresses,
                recipient.scan_public(),
            )[f],
        forall|f: int| 0 <= f < found.len() ==> (#[trigger] found[f]).label is None,
{
    let found = law_scan_is_exact(recipient, Seq::empty(), inputs, addresses, outputs);
    law_no_labels(
        scanner_of(recipient),
        seq![tweak_data_of(inputs)->Ok_0],
        keys_of(outputs),
    );
    assert forall|f: int| 0 <= f < found.len() implies (#[trigger] found[f]).label is None by {
        assert(is_own_address(
            recipient,
            Seq::empty(),
            addresses[found[f].output_index as int],
            found[f].label,
        ));
    }
    found
}

} // verus!
