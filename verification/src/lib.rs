//! Silent payments (BIP-352) for a wallet library: addresses, sending, scanning and spending.

pub mod address;
pub mod bip352;
pub mod bytes;
pub mod curve;
pub mod error;
pub mod hash;
pub mod keys;
pub mod laws;
pub mod network;
pub mod payment;
pub mod recipient;
pub mod scanner;
pub mod send;
pub mod spending;
pub mod text;

pub use address::SilentPaymentAddress;
pub use curve::{PublicKey, Scalar, SecretKey};
pub use error::SilentPaymentError;
pub use keys::{Descriptor, DescriptorSecretKey, ExtendedKey};
pub use network::{Network, NetworkKind, SpNetwork};
pub use payment::{
    FoundPayment, OutputWithKey, PaymentRecipient, ScanTransactionResult, SendingInput,
};
pub use recipient::SilentPaymentRecipient;
pub use scanner::SilentPaymentScanner;
pub use send::{
    compute_sender_tweak_data, create_silent_payment_outputs, try_compute_sender_tweak_data,
    try_create_silent_payment_outputs,
};
pub use spending::SpendableOutput;
