//! Recipients: wallets that hold the scan and the spend secret.

use crate::address::{address_keys, address_of, build_address, AddressView, SilentPaymentAddress};
use crate::bip352::{
    bytes_32, compute_label_pubkey, compute_label_scalar, hex_to_32_bytes, is_key_text,
    label_error, label_tweak, lemma_key_text, parse_secret_key, secret_from_hex,
};
use crate::bytes::{be_bytes, be_nat};
use crate::curve::{
    add_mod, compressed_point, is_point, is_secret, key_sum_text,
    lemma_log_of_point, tweak_text, PublicKey, Scalar, SecretKey,
};
use crate::error::{crypto_error, invalid_key, meets, ErrorView, SilentPaymentError};
use crate::keys::{
    bip39_seed, derive_bip352_secret_keys, ensure_root_level, mnemonic_seed, root_error, seed_root,
    Descriptor, DescriptorSecretKey, DescriptorSecretKeyView, ExtendedKey,
};
use crate::network::{to_network_kind, Network};
use crate::payment::{copy_payment, payment_views, FoundPayment, FoundPaymentView};
use crate::spending::SpendableOutput;
use crate::text::{decimal, decimal_text, hex_encode, hex_text, join, join3};
use std::sync::Arc;
use vstd::prelude::*;

verus! {

/// The keys of a wallet that receives silent payments. Holds secrets.
pub struct SilentPaymentRecipient {
    scan_secret: SecretKey,
    spend_secret: SecretKey,
    scan_public: PublicKey,
    spend_public: PublicKey,
    network: Network,
}

/// The model of a recipient: the numbers of its two secrets, and its network.
pub struct RecipientView {
    pub scan: nat,
    pub spend: nat,
    pub network: Network,
}

impl View for SilentPaymentRecipient {
    type V = RecipientView;

    closed spec fn view(&self) -> RecipientView {
        RecipientView { scan: self.scan_secret@, spend: self.spend_secret@, network: self.network }
    }
}

impl RecipientView {
    /// Whether both numbers are secret keys whose points are points.
    pub open spec fn wf(self) -> bool {
        &&& is_secret(self.scan)
        &&& is_secret(self.spend)
        &&& is_point(self.scan_public())
        &&& is_point(self.spend_public())
    }

    /// The scan public key.
    pub open spec fn scan_public(self) -> Seq<u8> {
        compressed_point(self.scan)
    }

    /// The spend public key.
    pub open spec fn spend_public(self) -> Seq<u8> {
        compressed_point(self.spend)
    }

    /// The number of the spend key of the labeled address `m`.
    pub open spec fn labeled_spend(self, m: nat) -> nat {
        add_mod(self.spend, label_tweak(self.scan, m))
    }

    /// The standard address.
    pub open spec fn address(self) -> AddressView {
        address_of(self.scan_public(), self.spend_public(), self.network)
    }

    /// The labeled address `m`: the spend key is shifted by the point of the label.
    pub open spec fn labeled_address(self, m: nat) -> Result<AddressView, ErrorView> {
        if !is_secret(label_tweak(self.scan, m)) {
            Err(ErrorView::CryptoError(label_error(m)))
        } else if self.labeled_spend(m) == 0 {
            Err(
                ErrorView::CryptoError(
                    "Failed to derive labeled spend key for m="@ + decimal(m) + ": "@
                        + key_sum_text(),
                ),
            )
        } else {
            Ok(
                address_of(
                    self.scan_public(),
                    compressed_point(self.labeled_spend(m)),
                    self.network,
                ),
            )
        }
    }

    /// The spend secret, shifted by the number of the label if there is one.
    pub open spec fn shifted_spend(self, label: Option<u32>) -> Result<nat, ErrorView> {
        match label {
            None => Ok(self.spend),
            Some(m) => if !is_secret(label_tweak(self.scan, m as nat)) {
                Err(ErrorView::CryptoError(label_error(m as nat)))
            } else if self.labeled_spend(m as nat) == 0 {
                Err(
                    ErrorView::CryptoError(
                        "Label "@ + decimal(m as nat) + " scalar addition failed: "@
                            + tweak_text(),
                    ),
                )
            } else {
                Ok(self.labeled_spend(m as nat))
            },
        }
    }

    /// The number of the key that spends a payment: spend secret, label and tweak together.
    pub open spec fn spending_key(self, payment: FoundPaymentView) -> Result<nat, ErrorView> {
        match bytes_32(payment.tweak_hex) {
            Err(e) => Err(e),
            Ok(tweak) => if !is_secret(be_nat(tweak)) {
                Err(
                    ErrorView::CryptoError(
                        "tweak_hex is not a valid secp256k1 scalar (0 < t_k < n required)"@,
                    ),
                )
            } else {
                match self.shifted_spend(payment.label) {
                    Err(e) => Err(e),
                    Ok(key) => if add_mod(key, be_nat(tweak)) == 0 {
                        Err(
                            ErrorView::CryptoError("t_k scalar addition failed: "@ + tweak_text()),
                        )
                    } else {
                        Ok(add_mod(key, be_nat(tweak)))
                    },
                }
            },
        }
    }

    /// The keys that spend a list of payments, or the error of the first that has none.
    pub open spec fn spending_keys(self, payments: Seq<FoundPaymentView>) -> Result<
        Seq<nat>,
        ErrorView,
    >
        decreases payments.len(),
    {
        if payments.len() == 0 {
            Ok(Seq::empty())
        } else {
            match self.spending_keys(payments.drop_last()) {
                Err(e) => Err(e),
                Ok(keys) => match self.spending_key(payments.last()) {
                    Err(e) => Err(e),
                    Ok(key) => Ok(keys.push(key)),
                },
            }
        }
    }

    /// If the first `n` payments have no keys, the whole list has none, for the same reason.
    proof fn lemma_spending_keys_error(self, payments: Seq<FoundPaymentView>, n: int)
        requires
            0 <= n <= payments.len(),
            self.spending_keys(payments.take(n)) is Err,
        ensures
            self.spending_keys(payments) == self.spending_keys(payments.take(n)),
        decreases payments.len() - n,
    {
        if n == payments.len() {
            assert(payments.take(n) =~= payments);
        } else {
            assert(payments.take(n + 1).drop_last() =~= payments.take(n));
            self.lemma_spending_keys_error(payments, n + 1);
        }
    }
}

/// The recipient with the secrets in two hexadecimal texts.
pub open spec fn recipient_from_hex(
    scan_secret_hex: Seq<char>,
    spend_secret_hex: Seq<char>,
    network: Network,
) -> Result<RecipientView, ErrorView> {
    match secret_from_hex(scan_secret_hex, "Invalid scan key: "@) {
        Err(e) => Err(e),
        Ok(scan) => match secret_from_hex(spend_secret_hex, "Invalid spend key: "@) {
            Err(e) => Err(e),
            Ok(spend) => Ok(RecipientView { scan, spend, network }),
        },
    }
}

/// The recipient whose secrets derive from a root key. There is no outcome if some step of the
/// derivation gives no key.
pub open spec fn recipient_from_root(
    key: DescriptorSecretKeyView,
    network: Network,
    account: u32,
) -> Option<Result<RecipientView, ErrorView>> {
    match (root_error(key), key) {
        (Some(e), _) => Some(Err(e)),
        (None, DescriptorSecretKeyView::XPrv { xkey, .. }) => match xkey.bip352_secrets(
            network,
            account,
        ) {
            None => None,
            Some(Err(e)) => Some(Err(e)),
            Some(Ok((scan, spend))) => Some(Ok(RecipientView { scan, spend, network })),
        },
        (None, _) => None,
    }
}

/// The recipient whose secrets derive from the first secret key of a descriptor.
pub open spec fn recipient_from_descriptor(
    keys: Seq<DescriptorSecretKeyView>,
    network: Network,
    account: u32,
) -> Option<Result<RecipientView, ErrorView>> {
    if keys.len() == 0 {
        Some(
            Err(
                ErrorView::InvalidKey(
                    "Descriptor has no embedded secret key — it appears to be watch-only (public-key-only). Silent Payments require access to the private key material."@,
                ),
            ),
        )
    } else {
        recipient_from_root(keys[0], network, account)
    }
}

/// The recipient whose secrets derive from the root key of a mnemonic phrase, without a passphrase.
/// There is no outcome if the seed gives no root key, or some step of the derivation no key.
pub open spec fn recipient_from_phrase(phrase: Seq<char>, network: Network, account: u32) -> Option<
    Result<RecipientView, ErrorView>,
> {
    match bip39_seed(phrase, ""@) {
        Err(m) => Some(Err(ErrorView::InvalidKey("Invalid BIP-39 mnemonic: "@ + m))),
        Ok(seed) => match seed_root(network.kind(), seed) {
            None => None,
            Some(xkey) => recipient_from_root(
                DescriptorSecretKeyView::XPrv { has_origin: false, xkey },
                network,
                account,
            ),
        },
    }
}

/// The numbers of the keys of a list of outputs.
pub open spec fn output_keys(outputs: Seq<Arc<SpendableOutput>>) -> Seq<nat> {
    Seq::new(outputs.len(), |i: int| outputs[i]@)
}

impl SilentPaymentRecipient {
    #[verifier::type_invariant]
    spec fn keys_correspond(self) -> bool {
        &&& self.scan_public@ == compressed_point(self.scan_secret@)
        &&& self.spend_public@ == compressed_point(self.spend_secret@)
    }

    /// The recipient with the given secrets.
    pub(crate) fn from_secrets(
        scan_secret: SecretKey,
        spend_secret: SecretKey,
        network: Network,
    ) -> (r: SilentPaymentRecipient)
        ensures
            r@ == (RecipientView { scan: scan_secret@, spend: spend_secret@, network }),
            r@.wf(),
    {
        proof {
            use_type_invariant(scan_secret);
            use_type_invariant(spend_secret);
        }
        SilentPaymentRecipient {
            scan_secret,
            spend_secret,
            scan_public: PublicKey::from_secret_key(&scan_secret),
            spend_public: PublicKey::from_secret_key(&spend_secret),
            network,
        }
    }

    /// A recipient with random secrets.
    pub fn generate(network: Network) -> (r: Result<Arc<SilentPaymentRecipient>, SilentPaymentError>)
        ensures
            r matches Ok(recipient) && recipient@.network == network && recipient@.wf(),
    {
        let scan_secret: SecretKey = SecretKey::random();
        let spend_secret: SecretKey = SecretKey::random();
        let recipient: SilentPaymentRecipient = SilentPaymentRecipient::from_secrets(
            scan_secret,
            spend_secret,
            network,
        );
        Ok(Arc::new(recipient))
    }

    /// The recipient whose secrets derive from a root key, or `None` if some step of the derivation
    /// gives no key.
    fn restore(root_key: &DescriptorSecretKey, network: Network, account: u32) -> (r: Option<
        Result<SilentPaymentRecipient, SilentPaymentError>,
    >)
        ensures
            match recipient_from_root(root_key@, network, account) {
                None => r is None,
                Some(model) => r matches Some(outcome) && meets(outcome, model) && (outcome matches Ok(
                    recipient,
                ) ==> recipient@.wf()),
            },
    {
        let xkey: ExtendedKey = match ensure_root_level(root_key) {
            Ok(key) => key,
            Err(e) => return Some(Err(e)),
        };
        match derive_bip352_secret_keys(&xkey, &network, account) {
            None => None,
            Some(Err(e)) => Some(Err(e)),
            Some(Ok((scan_secret, spend_secret))) => Some(
                Ok(SilentPaymentRecipient::from_secrets(scan_secret, spend_secret, network)),
            ),
        }
    }

    /// The root key of a mnemonic phrase, or `None` if the seed gives no root key.
    fn root_of_phrase(phrase: &str, network: Network) -> (r: Option<
        Result<DescriptorSecretKey, SilentPaymentError>,
    >)
        ensures
            match bip39_seed(phrase@, ""@) {
                Err(m) => r matches Some(Err(e)) && e@ == ErrorView::InvalidKey(
                    "Invalid BIP-39 mnemonic: "@ + m,
                ),
                Ok(seed) => match seed_root(network.kind(), seed) {
                    None => r is None,
                    Some(xkey) => r matches Some(Ok(key)) && key@
                        == (DescriptorSecretKeyView::XPrv { has_origin: false, xkey }),
                },
            },
    {
        let seed: [u8; 64] = match mnemonic_seed(phrase, "") {
            Ok(seed) => seed,
            Err(text) => return Some(
                Err(invalid_key(join("Invalid BIP-39 mnemonic: ", text.as_str()).as_str())),
            ),
        };
        match ExtendedKey::from_seed(to_network_kind(&network), seed) {
            Some(xkey) => Some(Ok(DescriptorSecretKey::XPrv { has_origin: false, xkey })),
            None => None,
        }
    }

    /// Restores a recipient from a mnemonic phrase.
    pub fn from_mnemonic(mnemonic_phrase: String, network: Network, account: u32) -> (r: Result<
        SilentPaymentRecipient,
        SilentPaymentError,
    >)
        requires
            recipient_from_phrase(mnemonic_phrase@, network, account) is Some,
        ensures
            meets(r, recipient_from_phrase(mnemonic_phrase@, network, account).unwrap()),
            r matches Ok(recipient) ==> recipient@.wf(),
    {
        match SilentPaymentRecipient::root_of_phrase(mnemonic_phrase.as_str(), network).unwrap() {
            Ok(root_key) => SilentPaymentRecipient::from_descriptor_secret_key(
                &root_key,
                network,
                account,
            ),
            Err(e) => Err(e),
        }
    }

    /// Restores a recipient from a mnemonic phrase, or returns `None` if the seed gives no root key
    /// or some step of the derivation no key.
    pub fn try_from_mnemonic(mnemonic_phrase: String, network: Network, account: u32) -> (r: Option<
        Result<SilentPaymentRecipient, SilentPaymentError>,
    >)
        ensures
            match recipient_from_phrase(mnemonic_phrase@, network, account) {
                None => r is None,
                Some(model) => r matches Some(outcome) && meets(outcome, model) && (outcome matches Ok(
                    recipient,
                ) ==> recipient@.wf()),
            },
    {
        match SilentPaymentRecipient::root_of_phrase(mnemonic_phrase.as_str(), network) {
            None => return None,
            Some(Ok(root_key)) => {
                if SilentPaymentRecipient::restore(&root_key, network, account).is_none() {
                    return None;
                }
            },
            Some(Err(_)) => {},
        }
        Some(SilentPaymentRecipient::from_mnemonic(mnemonic_phrase, network, account))
    }

    /// Restores a recipient from a root key.
    pub fn from_descriptor_secret_key(
        root_key: &DescriptorSecretKey,
        network: Network,
        account: u32,
    ) -> (r: Result<SilentPaymentRecipient, SilentPaymentError>)
        requires
            recipient_from_root(root_key@, network, account) is Some,
        ensures
            meets(r, recipient_from_root(root_key@, network, account).unwrap()),
            r matches Ok(recipient) ==> recipient@.wf(),
    {
        SilentPaymentRecipient::restore(root_key, network, account).unwrap()
    }

    /// Restores a recipient from a root key, or returns `None` if some step of the derivation gives
    /// no key.
    pub fn try_from_descriptor_secret_key(
        root_key: &DescriptorSecretKey,
        network: Network,
        account: u32,
    ) -> (r: Option<Result<SilentPaymentRecipient, SilentPaymentError>>)
        ensures
            match recipient_from_root(root_key@, network, account) {
                None => r is None,
                Some(model) => r matches Some(outcome) && meets(outcome, model) && (outcome matches Ok(
                    recipient,
                ) ==> recipient@.wf()),
            },
    {
        if SilentPaymentRecipient::restore(root_key, network, account).is_none() {
            return None;
        }
        Some(SilentPaymentRecipient::from_descriptor_secret_key(root_key, network, account))
    }

    /// Restores a recipient from the first secret key that is embedded in a descriptor.
    pub fn from_descriptor(descriptor: &Descriptor, network: Network, account: u32) -> (r: Result<
        SilentPaymentRecipient,
        SilentPaymentError,
    >)
        requires
            recipient_from_descriptor(descriptor@, network, account) is Some,
        ensures
            meets(r, recipient_from_descriptor(descriptor@, network, account).unwrap()),
            r matches Ok(recipient) ==> recipient@.wf(),
    {
        if descriptor.key_map.len() == 0 {
            return Err(
                invalid_key(
                    "Descriptor has no embedded secret key — it appears to be watch-only (public-key-only). Silent Payments require access to the private key material.",
                ),
            );
        }
        SilentPaymentRecipient::restore(&descriptor.key_map[0], network, account).unwrap()
    }

    /// Restores a recipient from the first secret key that is embedded in a descriptor, or returns
    /// `None` if some step of the derivation gives no key.
    pub fn try_from_descriptor(descriptor: &Descriptor, network: Network, account: u32) -> (r: Option<
        Result<SilentPaymentRecipient, SilentPaymentError>,
    >)
        ensures
            match recipient_from_descriptor(descriptor@, network, account) {
                None => r is None,
                Some(model) => r matches Some(outcome) && meets(outcome, model) && (outcome matches Ok(
                    recipient,
                ) ==> recipient@.wf()),
            },
    {
        if descriptor.key_map.len() > 0 && SilentPaymentRecipient::restore(
            &descriptor.key_map[0],
            network,
            account,
        ).is_none() {
            return None;
        }
        Some(SilentPaymentRecipient::from_descriptor(descriptor, network, account))
    }

    /// Restores a recipient from the hexadecimal texts of its secrets.
    pub fn from_secret_keys(
        scan_secret_hex: String,
        spend_secret_hex: String,
        network: Network,
    ) -> (r: Result<Arc<SilentPaymentRecipient>, SilentPaymentError>)
        ensures
            meets(r, recipient_from_hex(scan_secret_hex@, spend_secret_hex@, network)),
            r matches Ok(recipient) ==> recipient@.wf(),
    {
        let scan_secret: SecretKey = match parse_secret_key(
            scan_secret_hex.as_str(),
            "Invalid scan key: ",
        ) {
            Ok(key) => key,
            Err(e) => return Err(e),
        };
        let spend_secret: SecretKey = match parse_secret_key(
            spend_secret_hex.as_str(),
            "Invalid spend key: ",
        ) {
            Ok(key) => key,
            Err(e) => return Err(e),
        };
        Ok(
            Arc::new(
                SilentPaymentRecipient::from_secrets(scan_secret, spend_secret, network),
            ),
        )
    }

    /// The standard (unlabeled) address.
    pub fn get_address(&self) -> (r: SilentPaymentAddress)
        ensures
            r@ == self@.address(),
            address_keys(r.address@) == Ok::<_, ErrorView>(
                (self@.scan_public(), self@.spend_public()),
            ),
            (self@.network.sp_network()@ + "1q"@).is_prefix_of(r.address@),
            is_key_text(r.scan_pubkey_hex@),
            is_key_text(r.spend_pubkey_hex@),
            self@.wf(),
    {
        proof {
            use_type_invariant(self);
            use_type_invariant(self.scan_secret);
            use_type_invariant(self.spend_secret);
            use_type_invariant(self.scan_public);
            use_type_invariant(self.spend_public);
        }
        build_address(&self.scan_public, &self.spend_public, self.network)
    }

    /// The labeled address `label`. Payments to it are found in the same scan as all others.
    ///
    /// The label 0 is reserved by convention.
    pub fn get_labeled_address(&self, label: u32) -> (r: Result<
        SilentPaymentAddress,
        SilentPaymentError,
    >)
        ensures
            meets(r, self@.labeled_address(label as nat)),
            r matches Ok(address) ==> {
                &&& address_keys(address.address@) == Ok::<_, ErrorView>(
                    (self@.scan_public(), compressed_point(self@.labeled_spend(label as nat))),
                )
                &&& is_point(compressed_point(self@.labeled_spend(label as nat)))
                &&& (self@.network.sp_network()@ + "1q"@).is_prefix_of(address.address@)
                &&& is_key_text(address.scan_pubkey_hex@)
                &&& is_key_text(address.spend_pubkey_hex@)
            },
    {
        proof {
            use_type_invariant(self);
            use_type_invariant(self.spend_secret);
            use_type_invariant(self.spend_public);
            lemma_log_of_point(self@.spend);
        }
        let label_pubkey: PublicKey = match compute_label_pubkey(&self.scan_secret, label) {
            Ok(key) => key,
            Err(e) => return Err(e),
        };
        proof {
            use_type_invariant(label_pubkey);
            lemma_log_of_point(label_tweak(self@.scan, label as nat));
        }
        let b_m: PublicKey = match self.spend_public.combine(&label_pubkey) {
            Ok(key) => key,
            Err(text) => {
                let head: String = join3(
                    "Failed to derive labeled spend key for m=",
                    decimal_text(label).as_str(),
                    ": ",
                );
                return Err(crypto_error(join(head.as_str(), text.as_str()).as_str()));
            },
        };
        proof {
            use_type_invariant(b_m);
        }
        Ok(build_address(&self.scan_public, &b_m, self.network))
    }

    /// The scan secret as 64 hexadecimal digits. This is private.
    pub fn export_scan_secret_hex(&self) -> (r: String)
        ensures
            r@ == hex_text(be_bytes(self@.scan, 32)),
            r@.len() == 64,
    {
        hex_encode(self.scan_secret.secret_bytes().as_slice())
    }

    /// The spend secret as 64 hexadecimal digits. This is private.
    pub fn export_spend_secret_hex(&self) -> (r: String)
        ensures
            r@ == hex_text(be_bytes(self@.spend, 32)),
            r@.len() == 64,
    {
        hex_encode(self.spend_secret.secret_bytes().as_slice())
    }

    /// The spend public key as 66 hexadecimal digits.
    pub fn export_spend_pubkey_hex(&self) -> (r: String)
        ensures
            r@ == hex_text(self@.spend_public()),
            is_key_text(r@),
    {
        proof {
            use_type_invariant(self);
            use_type_invariant(self.spend_public);
            lemma_key_text(self@.spend_public());
        }
        hex_encode(self.spend_public.serialize().as_slice())
    }

    /// The key that spends a found payment: spend secret, label and tweak together.
    pub fn derive_spending_key(&self, payment: FoundPayment) -> (r: Result<
        Arc<SpendableOutput>,
        SilentPaymentError,
    >)
        ensures
            meets(r, self@.spending_key(payment@)),
    {
        let tweak: [u8; 32] = match hex_to_32_bytes(payment.tweak_hex.as_str()) {
            Ok(bytes) => bytes,
            Err(e) => return Err(e),
        };
        let t_k_scalar: Scalar = match SecretKey::from_slice(tweak.as_slice()) {
            Ok(t_k) => t_k.to_scalar(),
            Err(_) => return Err(
                crypto_error("tweak_hex is not a valid secp256k1 scalar (0 < t_k < n required)"),
            ),
        };
        let mut key: SecretKey = self.spend_secret;
        if let Some(m) = payment.label {
            let label_scalar: Scalar = match compute_label_scalar(&self.scan_secret, m) {
                Ok(scalar) => scalar,
                Err(e) => return Err(e),
            };
            key =
            match key.add_tweak(&label_scalar) {
                Ok(sum) => sum,
                Err(text) => {
                    let head: String = join3(
                        "Label ",
                        decimal_text(m).as_str(),
                        " scalar addition failed: ",
                    );
                    return Err(crypto_error(join(head.as_str(), text.as_str()).as_str()));
                },
            };
        }
        match key.add_tweak(&t_k_scalar) {
            Ok(sum) => Ok(Arc::new(SpendableOutput::from_key(sum))),
            Err(text) => Err(
                crypto_error(join("t_k scalar addition failed: ", text.as_str()).as_str()),
            ),
        }
    }

    /// The keys that spend a list of found payments, or the error of the first that has none.
    pub fn derive_spending_keys_batch(&self, payments: Vec<FoundPayment>) -> (r: Result<
        Vec<Arc<SpendableOutput>>,
        SilentPaymentError,
    >)
        ensures
            match self@.spending_keys(payment_views(payments@)) {
                Ok(keys) => r matches Ok(outputs) && output_keys(outputs@) == keys,
                Err(m) => r matches Err(e) && e@ == m,
            },
    {
        let ghost all = payment_views(payments@);
        let mut outputs: Vec<Arc<SpendableOutput>> = Vec::new();
        assert(output_keys(outputs@) =~= Seq::<nat>::empty());
        let mut i: usize = 0;
        while i < payments.len()
            invariant
                i <= payments@.len(),
                all == payment_views(payments@),
                self@.spending_keys(all.take(i as int)) == Ok::<_, ErrorView>(
                    output_keys(outputs@),
                ),
            decreases payments@.len() - i,
        {
            let payment: FoundPayment = copy_payment(&payments[i]);
            proof {
                let step = all.take(i + 1);
                assert(step.drop_last() =~= all.take(i as int));
                assert(step.last() == payment@);
            }
            match self.derive_spending_key(payment) {
                Ok(output) => {
                    let ghost before = outputs@;
                    outputs.push(output);
                    assert(output_keys(outputs@) =~= output_keys(before).push(output@));
                },
                Err(e) => {
                    proof {
                        self@.lemma_spending_keys_error(all, i + 1);
                    }
                    return Err(e);
                },
            }
            i = i + 1;
        }
        assert(all.take(i as int) =~= all);
        Ok(outputs)
    }
}

} // verus!
