//! The error type of the library and its model.

use vstd::prelude::*;

verus! {

/// Why an operation failed. Every variant carries the text shown to the user.
#[derive(Debug)]
pub enum SilentPaymentError {
    InvalidKey { msg: String },
    InvalidAddress { msg: String },
    CryptoError { msg: String },
    EncodingError { msg: String },
}

/// The model of an error: its variant and its text.
pub enum ErrorView {
    InvalidKey(Seq<char>),
    InvalidAddress(Seq<char>),
    CryptoError(Seq<char>),
    EncodingError(Seq<char>),
}

impl View for SilentPaymentError {
    type V = ErrorView;

    open spec fn view(&self) -> ErrorView {
        match *self {
            SilentPaymentError::InvalidKey { msg } => ErrorView::InvalidKey(msg@),
            SilentPaymentError::InvalidAddress { msg } => ErrorView::InvalidAddress(msg@),
            SilentPaymentError::CryptoError { msg } => ErrorView::CryptoError(msg@),
            SilentPaymentError::EncodingError { msg } => ErrorView::EncodingError(msg@),
        }
    }
}

impl SilentPaymentError {
    /// The text shown to the user: the kind of the error, then its message.
    pub fn to_text(&self) -> (r: String)
        ensures
            r@ == self@.text(),
    {
        let (kind, msg): (&str, &String) = match self {
            SilentPaymentError::InvalidKey { msg } => ("Invalid key: ", msg),
            SilentPaymentError::InvalidAddress { msg } => ("Invalid address: ", msg),
            SilentPaymentError::CryptoError { msg } => ("Cryptography error: ", msg),
            SilentPaymentError::EncodingError { msg } => ("Encoding error: ", msg),
        };
        let mut out: String = kind.to_owned();
        out.append(msg.as_str());
        out
    }
}

impl ErrorView {
    /// The text shown to the user.
    pub open spec fn text(self) -> Seq<char> {
        match self {
            ErrorView::InvalidKey(msg) => "Invalid key: "@ + msg,
            ErrorView::InvalidAddress(msg) => "Invalid address: "@ + msg,
            ErrorView::CryptoError(msg) => "Cryptography error: "@ + msg,
            ErrorView::EncodingError(msg) => "Encoding error: "@ + msg,
        }
    }
}

/// Whether a result is what the model says: the value with that view, or the error with that view.
pub open spec fn meets<T: View>(r: Result<T, SilentPaymentError>, model: Result<T::V, ErrorView>) -> bool {
    match model {
        Ok(v) => r matches Ok(x) && x@ == v,
        Err(m) => r matches Err(e) && e@ == m,
    }
}

/// An `InvalidKey` error with the given text.
pub(crate) fn invalid_key(msg: &str) -> (r: SilentPaymentError)
    ensures
        r@ == ErrorView::InvalidKey(msg@),
{
    SilentPaymentError::InvalidKey { msg: msg.to_owned() }
}

/// An `InvalidAddress` error with the given text.
pub(crate) fn invalid_address(msg: &str) -> (r: SilentPaymentError)
    ensures
        r@ == ErrorView::InvalidAddress(msg@),
{
    SilentPaymentError::InvalidAddress { msg: msg.to_owned() }
}

/// A `CryptoError` with the given text.
pub(crate) fn crypto_error(msg: &str) -> (r: SilentPaymentError)
    ensures
        r@ == ErrorView::CryptoError(msg@),
{
    SilentPaymentError::CryptoError { msg: msg.to_owned() }
}

/// An `EncodingError` with the given text.
pub(crate) fn encoding_error(msg: &str) -> (r: SilentPaymentError)
    ensures
        r@ == ErrorView::EncodingError(msg@),
{
    SilentPaymentError::EncodingError { msg: msg.to_owned() }
}

} // verus!
