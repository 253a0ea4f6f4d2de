//! What the holder of the secrets computes, on every input.

use crate::address::{address_of, AddressView, SilentPaymentAddress};
use crate::bip352::label_tweak;
use crate::bytes::be_nat;
use crate::curve::{compressed_point, curve_order, is_point};
use crate::error::ErrorView;
use crate::laws::round_trip::scanner_of;
use crate::laws::scanning::{has_address, law_found_payments_are_spendable, lists};
use crate::payment::{payment_views, FoundPayment, FoundPaymentView};
use crate::recipient::{output_keys, RecipientView};
use crate::spending::SpendableOutput;
use crate::text::{decimal, hex_bytes, hex_error};
use std::sync::Arc;
use vstd::arithmetic::div_mod::lemma_add_mod_noop_right;
use vstd::prelude::*;
use vstd::utf8::encode_utf8;

verus! {

/// The key that spends a payment is the sum of the spend secret, the number of the label if there is
/// one, and the tweak, whatever the index and the amount of the payment. It exists if the tweak is
/// the text of a secret key, the number of the label is one, and no sum on the way is zero.
pub proof fn law_spending_key(recipient: RecipientView, payment: FoundPaymentView, tweak: Seq<u8>)
    requires
        hex_bytes(encode_utf8(payment.tweak_hex)) == Some(tweak),
        tweak.len() == 32,
        0 < be_nat(tweak) < curve_order(),
    ensures
        payment.label is None ==> recipient.spending_key(payment) == if (recipient.spend + be_nat(
            tweak,
        )) % curve_order() != 0 {
            Ok::<_, ErrorView>((recipient.spend + be_nat(tweak)) % curve_order())
        } else {
            Err(ErrorView::CryptoError("t_k scalar addition failed: "@ + "bad tweak"@))
        },
        payment.label matches Some(m) ==> {
            let shift = label_tweak(recipient.scan, m as nat);
            let sum = (recipient.spend + shift + be_nat(tweak)) % curve_order();
            &&& 0 < shift < curve_order() && (recipient.spend + shift) % curve_order() != 0 && sum
                != 0 ==> recipient.spending_key(payment) == Ok::<_, ErrorView>(sum)
            &&& 0 < shift < curve_order() && (recipient.spend + shift) % curve_order() != 0 && sum
                == 0 ==> recipient.spending_key(payment) == Err::<nat, _>(
                ErrorView::CryptoError("t_k scalar addition failed: "@ + "bad tweak"@),
            )
            &&& 0 < shift < curve_order() && (recipient.spend + shift) % curve_order() == 0
                ==> recipient.spending_key(payment) == Err::<nat, _>(
                ErrorView::CryptoError(
                    "Label "@ + decimal(m as nat) + " scalar addition failed: "@ + "bad tweak"@,
                ),
            )
            &&& shift == 0 || shift >= curve_order() ==> recipient.spending_key(payment) == Err::<
                nat,
                _,
            >(
                ErrorView::CryptoError(
                    "Label "@ + decimal(m as nat) + " hash is an invalid scalar: "@
                        + "malformed or out-of-range secret key"@,
                ),
            )
        },
{
    if let Some(m) = payment.label {
        let shift = label_tweak(recipient.scan, m as nat);
        lemma_add_mod_noop_right(
            be_nat(tweak) as int,
            (recipient.spend + shift) as int,
            curve_order() as int,
        );
    }
}

/// A payment whose tweak is not the text of a secret key cannot be spent, and is told why.
pub proof fn law_spending_key_refusal(recipient: RecipientView, payment: FoundPaymentView)
    ensures
        match hex_bytes(encode_utf8(payment.tweak_hex)) {
            None => recipient.spending_key(payment) == Err::<nat, _>(
                ErrorView::EncodingError(hex_error(encode_utf8(payment.tweak_hex))),
            ),
            Some(tweak) => {
                &&& tweak.len() != 32 ==> recipient.spending_key(payment) == Err::<nat, _>(
                    ErrorView::EncodingError(
                        "Expected 32 bytes (64 hex chars), got: "@ + payment.tweak_hex,
                    ),
                )
                &&& tweak.len() == 32 && (be_nat(tweak) == 0 || be_nat(tweak) >= curve_order())
                    ==> recipient.spending_key(payment) == Err::<nat, _>(
                    ErrorView::CryptoError(
                        "tweak_hex is not a valid secp256k1 scalar (0 < t_k < n required)"@,
                    ),
                )
            },
        },
{
}

/// The key that spends a payment depends on its tweak and its label only: filling in the amount, or
/// counting the outputs otherwise, does not change it.
pub proof fn law_spending_key_of_tweak_and_label(
    recipient: RecipientView,
    a: FoundPaymentView,
    b: FoundPaymentView,
)
    requires
        a.tweak_hex == b.tweak_hex,
        a.label == b.label,
    ensures
        recipient.spending_key(a) == recipient.spending_key(b),
{
}

/// Every payment that a scan finds can be spent after the caller has filled in its amount: the key is
/// the one of the output that the payment names.
pub proof fn law_filled_payments_are_spendable(
    recipient: RecipientView,
    senders: Seq<Seq<char>>,
    outputs: Seq<Seq<char>>,
    labels: Seq<u32>,
    found: Seq<FoundPaymentView>,
    f: int,
    amount_sats: u64,
)
    requires
        recipient.wf(),
        outputs.len() <= 0x1_0000_0000,
        scanner_of(recipient).scan_labeled(senders, outputs, labels) == Some(
            Ok::<_, ErrorView>(found),
        ),
        0 <= f < found.len(),
        has_address(recipient, found[f].label),
    ensures
        ({
            let filled = FoundPaymentView {
                output_index: found[f].output_index,
                tweak_hex: found[f].tweak_hex,
                amount_sats,
                label: found[f].label,
            };
            &&& recipient.spending_key(filled) is Ok
            &&& found[f].output_index < outputs.len()
            &&& lists(
                outputs[found[f].output_index as int],
                recipient.spending_key(filled)->Ok_0,
            )
        }),
{
    law_found_payments_are_spendable(recipient, senders, outputs, labels, found, f);
}

/// A batch of payments that all have keys has keys.
pub proof fn law_batch_succeeds(recipient: RecipientView, payments: Seq<FoundPaymentView>)
    requires
        forall|j: int|
            0 <= j < payments.len() ==> recipient.spending_key(#[trigger] payments[j]) is Ok,
    ensures
        recipient.spending_keys(payments) is Ok,
    decreases payments.len(),
{
    if payments.len() > 0 {
        let shorter = payments.drop_last();
        assert forall|j: int| 0 <= j < shorter.len() implies recipient.spending_key(
            #[trigger] shorter[j],
        ) is Ok by {
            assert(shorter[j] == payments[j]);
        }
        law_batch_succeeds(recipient, shorter);
        assert(recipient.spending_key(payments[payments.len() - 1]) is Ok);
    }
}

/// The models of payments and outputs keep every item, in order.
pub proof fn law_batch_views(
    payments: Seq<FoundPayment>,
    outputs: Seq<Arc<SpendableOutput>>,
    i: int,
)
    ensures
        payment_views(payments).len() == payments.len(),
        0 <= i < payments.len() ==> payment_views(payments)[i] == payments[i]@,
        output_keys(outputs).len() == outputs.len(),
        0 <= i < outputs.len() ==> output_keys(outputs)[i] == outputs[i]@,
{
}

/// The public keys of a recipient are the generator times its secrets, and its standard address is
/// that of these keys on its network.
pub proof fn law_standard_address(recipient: RecipientView)
    ensures
        recipient.scan_public() == compressed_point(recipient.scan),
        recipient.spend_public() == compressed_point(recipient.spend),
        recipient.address() == address_of(
            compressed_point(recipient.scan),
            compressed_point(recipient.spend),
            recipient.network,
        ),
        recipient.wf() <==> {
            &&& 0 < recipient.scan < curve_order()
            &&& 0 < recipient.spend < curve_order()
            &&& is_point(compressed_point(recipient.scan))
            &&& is_point(compressed_point(recipient.spend))
        },
{
}

/// The labeled address `m` has the scan key of the recipient, and as its spend key the generator times
/// the sum of the spend secret and the number of the label, which has to be a secret key; the sum
/// must not be zero.
pub proof fn law_labeled_address(recipient: RecipientView, m: u32)
    ensures
        ({
            let shift = label_tweak(recipient.scan, m as nat);
            let sum = (recipient.spend + shift) % curve_order();
            &&& 0 < shift < curve_order() && sum != 0 ==> recipient.labeled_address(m as nat)
                == Ok::<_, ErrorView>(
                address_of(
                    compressed_point(recipient.scan),
                    compressed_point(sum),
                    recipient.network,
                ),
            )
            &&& 0 < shift < curve_order() && sum == 0 ==> recipient.labeled_address(m as nat)
                == Err::<AddressView, _>(
                ErrorView::CryptoError(
                    "Failed to derive labeled spend key for m="@ + decimal(m as nat) + ": "@
                        + "the sum of public keys was invalid or the input vector lengths was less than 1"@,
                ),
            )
            &&& shift == 0 || shift >= curve_order() ==> recipient.labeled_address(m as nat)
                == Err::<AddressView, _>(
                ErrorView::CryptoError(
                    "Label "@ + decimal(m as nat) + " hash is an invalid scalar: "@
                        + "malformed or out-of-range secret key"@,
                ),
            )
            &&& recipient.labeled_spend(m as nat) == sum
        }),
{
}

/// The model of an address keeps all of its fields.
pub proof fn law_address_view(address: SilentPaymentAddress)
    ensures
        address@.address == address.address@,
        address@.scan_pubkey_hex == address.scan_pubkey_hex@,
        address@.spend_pubkey_hex == address.spend_pubkey_hex@,
        address@.network == address.network,
{
}

} // verus!
