//! The records that go in and out of the library.

use vstd::prelude::*;

verus! {

/// A payment found during transaction scanning. The tweak is needed for spending it.
#[derive(Debug, Clone)]
pub struct FoundPayment {
    /// Index of the output in the transaction.
    pub output_index: u32,
    /// 32-byte tweak scalar, as 64 hexadecimal digits.
    pub tweak_hex: String,
    /// Output value in satoshis. The caller fills this from transaction data.
    pub amount_sats: u64,
    /// `None` for the standard address, `Some(m)` for the labeled address `m`.
    pub label: Option<u32>,
}

/// The model of a found payment.
#[verifier::ext_equal]
pub struct FoundPaymentView {
    pub output_index: u32,
    pub tweak_hex: Seq<char>,
    pub amount_sats: u64,
    pub label: Option<u32>,
}

impl View for FoundPayment {
    type V = FoundPaymentView;

    open spec fn view(&self) -> FoundPaymentView {
        FoundPaymentView {
            output_index: self.output_index,
            tweak_hex: self.tweak_hex@,
            amount_sats: self.amount_sats,
            label: self.label,
        }
    }
}

/// The models of a list of found payments.
pub open spec fn payment_views(payments: Seq<FoundPayment>) -> Seq<FoundPaymentView> {
    Seq::new(payments.len(), |i: int| payments[i]@)
}

/// A copy of a found payment.
pub(crate) fn copy_payment(payment: &FoundPayment) -> (r: FoundPayment)
    ensures
        r@ == payment@,
{
    FoundPayment {
        output_index: payment.output_index,
        tweak_hex: payment.tweak_hex.as_str().to_owned(),
        amount_sats: payment.amount_sats,
        label: payment.label,
    }
}

/// The payments that one scan found.
#[derive(Debug, Clone)]
pub struct ScanTransactionResult {
    pub payments: Vec<FoundPayment>,
}

impl View for ScanTransactionResult {
    type V = Seq<FoundPaymentView>;

    open spec fn view(&self) -> Seq<FoundPaymentView> {
        payment_views(self.payments@)
    }
}

/// The public key of an output, and the address that it pays to.
///
/// The script of the output is `0x51 0x20` followed by the key without its first byte.
#[derive(Debug, Clone)]
pub struct OutputWithKey {
    pub pubkey_hex: String,
    pub recipient_address: String,
}

/// The model of an output.
#[verifier::ext_equal]
pub struct OutputView {
    pub pubkey_hex: Seq<char>,
    pub recipient_address: Seq<char>,
}

impl View for OutputWithKey {
    type V = OutputView;

    open spec fn view(&self) -> OutputView {
        OutputView { pubkey_hex: self.pubkey_hex@, recipient_address: self.recipient_address@ }
    }
}

/// An address to pay to, and how much.
#[derive(Debug, Clone)]
pub struct PaymentRecipient {
    pub address: String,
    pub amount_sats: u64,
}

/// One input that a silent payment transaction spends.
#[derive(Debug, Clone)]
pub struct SendingInput {
    /// Secret key of the input, as 64 hexadecimal digits.
    pub secret_key_hex: String,
    /// Whether the input is a taproot output: its key is negated if the point is odd.
    pub is_taproot: bool,
    /// Transaction that the input spends from, as explorers show it.
    pub txid: String,
    /// Index of the output that the input spends.
    pub vout: u32,
}

/// The model of an input.
#[verifier::ext_equal]
pub struct InputView {
    pub secret_key_hex: Seq<char>,
    pub is_taproot: bool,
    pub txid: Seq<char>,
    pub vout: u32,
}

impl View for SendingInput {
    type V = InputView;

    open spec fn view(&self) -> InputView {
        InputView {
            secret_key_hex: self.secret_key_hex@,
            is_taproot: self.is_taproot,
            txid: self.txid@,
            vout: self.vout,
        }
    }
}

/// The models of a list of inputs.
pub open spec fn input_views(inputs: Seq<SendingInput>) -> Seq<InputView> {
    Seq::new(inputs.len(), |i: int| inputs[i]@)
}

/// The addresses of a list of recipients.
pub open spec fn addresses(recipients: Seq<PaymentRecipient>) -> Seq<Seq<char>> {
    Seq::new(recipients.len(), |i: int| recipients[i].address@)
}

/// The models of a list of outputs.
pub open spec fn output_views(outputs: Seq<OutputWithKey>) -> Seq<OutputView> {
    Seq::new(outputs.len(), |i: int| outputs[i]@)
}

} // verus!
