//! Scanners: watch-only wallets that find payments without being able to spend them.

use crate::address::{address_keys, address_of, build_address, SilentPaymentAddress};
use crate::bip352::{
    compute_label_pubkey, compute_p_n, compute_t_n, ecdh_point, is_key_text, label_error,
    label_tweak, match_output, match_point, output_error, output_log, output_tweak, parse_pubkey_33,
    parse_public_key, parse_secret_key, point_from_hex, pubkey_to_hex_pair, secret_from_hex,
    shared_point, texts,
};
use crate::bytes::be_bytes;
use crate::curve::{
    add_mod, compressed_point, is_point, is_secret, key_sum_text, lemma_log_of_point, point_log,
    PublicKey, SecretKey,
};
use crate::error::{crypto_error, invalid_key, meets, ErrorView, SilentPaymentError};
use crate::network::Network;
use crate::payment::{payment_views, FoundPayment, FoundPaymentView, ScanTransactionResult};
use crate::text::{decimal, decimal_text, hex_encode, hex_text, join, join3};
use std::sync::Arc;
use vstd::prelude::*;

verus! {

/// A scanner: the scan secret and the spend public key of a recipient. Cannot spend.
pub struct SilentPaymentScanner {
    scan_secret: SecretKey,
    scan_public: PublicKey,
    spend_public: PublicKey,
}

/// The model of a scanner: the number of the scan secret, and the spend public key.
#[verifier::ext_equal]
pub struct ScannerView {
    pub scan: nat,
    pub spend_public: Seq<u8>,
}

impl View for SilentPaymentScanner {
    type V = ScannerView;

    closed spec fn view(&self) -> ScannerView {
        ScannerView { scan: self.scan_secret@, spend_public: self.spend_public@ }
    }
}

/// The payment that was found at `output_index` as the output `k`.
pub open spec fn payment_at(
    shared: Seq<u8>,
    k: nat,
    output_index: u32,
    label: Option<u32>,
) -> FoundPaymentView {
    FoundPaymentView {
        output_index,
        tweak_hex: hex_text(be_bytes(output_tweak(shared, k), 32)),
        amount_sats: 0,
        label,
    }
}

/// `found`, then the outcome `rest` of the remaining scan.
pub open spec fn prepend(
    found: Seq<FoundPaymentView>,
    rest: Option<Result<Seq<FoundPaymentView>, ErrorView>>,
) -> Option<Result<Seq<FoundPaymentView>, ErrorView>> {
    match rest {
        Some(Ok(more)) => Some(Ok(found + more)),
        _ => rest,
    }
}

/// What a scan for the outputs `k`, `k + 1` and so on finds. It ends at the first that is not in
/// the transaction. There is no outcome if none of those that a counter can reach is missing.
pub open spec fn plain_scan(
    spend: nat,
    shared: Seq<u8>,
    outputs: Seq<Seq<char>>,
    k: nat,
) -> Option<Result<Seq<FoundPaymentView>, ErrorView>>
    decreases 0x1_0000_0000 - k,
{
    if k > u32::MAX {
        None
    } else {
        match output_error(spend, shared, k) {
            Some(e) => Some(Err(e)),
            None => match match_point(outputs, output_log(spend, shared, k)) {
                None => Some(Ok(Seq::empty())),
                Some(i) => prepend(
                    seq![payment_at(shared, k, i, None)],
                    plain_scan(spend, shared, outputs, k + 1),
                ),
            },
        }
    }
}

/// The first of some labels whose number is no secret key.
pub open spec fn bad_label(scan: nat, labels: Seq<u32>) -> Option<u32>
    decreases labels.len(),
{
    if labels.len() == 0 {
        None
    } else {
        match bad_label(scan, labels.drop_last()) {
            Some(m) => Some(m),
            None => if is_secret(label_tweak(scan, labels.last() as nat)) {
                None
            } else {
                Some(labels.last())
            },
        }
    }
}

/// The payments to labeled addresses that were found as the output `k`, in the order of the labels.
pub open spec fn labeled_payments(
    scan: nat,
    spend: nat,
    shared: Seq<u8>,
    outputs: Seq<Seq<char>>,
    labels: Seq<u32>,
    k: nat,
) -> Result<Seq<FoundPaymentView>, ErrorView>
    decreases labels.len(),
{
    if labels.len() == 0 {
        Ok(Seq::empty())
    } else {
        match labeled_payments(scan, spend, shared, outputs, labels.drop_last(), k) {
            Err(e) => Err(e),
            Ok(found) => {
                let m = labels.last();
                let log = add_mod(output_log(spend, shared, k), label_tweak(scan, m as nat));
                if log == 0 {
                    Err(
                        ErrorView::CryptoError(
                            "Point addition failed for label "@ + decimal(m as nat) + ": "@
                                + key_sum_text(),
                        ),
                    )
                } else {
                    match match_point(outputs, log) {
                        None => Ok(found),
                        Some(i) => Ok(found.push(payment_at(shared, k, i, Some(m)))),
                    }
                }
            },
        }
    }
}

/// The payment to the standard address that was found as the output `k`, if there is one.
pub open spec fn unlabeled_payment(
    spend: nat,
    shared: Seq<u8>,
    outputs: Seq<Seq<char>>,
    k: nat,
) -> Seq<FoundPaymentView> {
    match match_point(outputs, output_log(spend, shared, k)) {
        None => Seq::empty(),
        Some(i) => seq![payment_at(shared, k, i, None)],
    }
}

/// What a scan for the outputs `k`, `k + 1` and so on finds, each to the standard address or to
/// that of a label. It ends at the first that is in the transaction in none of these ways. There is
/// no outcome if none of those that a counter can reach is missing.
pub open spec fn labeled_scan(
    scan: nat,
    spend: nat,
    shared: Seq<u8>,
    outputs: Seq<Seq<char>>,
    labels: Seq<u32>,
    k: nat,
) -> Option<Result<Seq<FoundPaymentView>, ErrorView>>
    decreases 0x1_0000_0000 - k,
{
    if k > u32::MAX {
        None
    } else {
        match output_error(spend, shared, k) {
            Some(e) => Some(Err(e)),
            None => match labeled_payments(scan, spend, shared, outputs, labels, k) {
                Err(e) => Some(Err(e)),
                Ok(labeled) => {
                    let found = unlabeled_payment(spend, shared, outputs, k) + labeled;
                    if found.len() == 0 {
                        Some(Ok(Seq::empty()))
                    } else {
                        prepend(found, labeled_scan(scan, spend, shared, outputs, labels, k + 1))
                    }
                },
            },
        }
    }
}

/// Whether the payments name outputs that list keys: by the 66 digits of a public key, or by 64
/// digits. A list that is too long to be counted is left out.
pub open spec fn name_keys(found: Seq<FoundPaymentView>, outputs: Seq<Seq<char>>) -> bool {
    outputs.len() <= 0x1_0000_0000 ==> forall|f: int|
        0 <= f < found.len() ==> {
            let i = (#[trigger] found[f]).output_index as int;
            i < outputs.len() && (is_key_text(outputs[i]) || outputs[i].len() == 64)
        }
}

impl ScannerView {
    /// Whether the scan number is a secret key, and both public keys are points.
    pub open spec fn wf(self) -> bool {
        &&& is_secret(self.scan)
        &&& is_point(self.scan_public())
        &&& is_point(self.spend_public)
    }

    /// The scan public key.
    pub open spec fn scan_public(self) -> Seq<u8> {
        compressed_point(self.scan)
    }

    /// The logarithm of the spend public key.
    pub open spec fn spend(self) -> nat {
        point_log(self.spend_public)
    }

    /// The point shared with the sender whose tweak data is the given point.
    pub open spec fn shared(self, tweak_data: Seq<u8>) -> Seq<u8> {
        shared_point(self.scan, point_log(tweak_data))
    }

    /// What a scan for payments to the standard address finds.
    pub open spec fn scan_plain(self, senders: Seq<Seq<char>>, outputs: Seq<Seq<char>>) -> Option<
        Result<Seq<FoundPaymentView>, ErrorView>,
    > {
        if senders.len() == 0 {
            Some(
                Err(
                    ErrorView::InvalidKey(
                        "sender_input_pubkeys_hex must contain at least one entry (the Frigate tweak key)"@,
                    ),
                ),
            )
        } else {
            match point_from_hex(senders[0], "Invalid compressed pubkey: "@) {
                Err(e) => Some(Err(e)),
                Ok(point) => plain_scan(self.spend(), self.shared(point), outputs, 0),
            }
        }
    }

    /// What a scan for payments to the standard and to labeled addresses finds.
    pub open spec fn scan_labeled(
        self,
        senders: Seq<Seq<char>>,
        outputs: Seq<Seq<char>>,
        labels: Seq<u32>,
    ) -> Option<Result<Seq<FoundPaymentView>, ErrorView>> {
        if senders.len() == 0 {
            Some(Err(ErrorView::InvalidKey("sender_input_pubkeys_hex must not be empty"@)))
        } else {
            match point_from_hex(senders[0], "Invalid compressed pubkey: "@) {
                Err(e) => Some(Err(e)),
                Ok(point) => match bad_label(self.scan, labels) {
                    Some(m) => Some(Err(ErrorView::CryptoError(label_error(m as nat)))),
                    None => labeled_scan(
                        self.scan,
                        self.spend(),
                        self.shared(point),
                        outputs,
                        labels,
                        0,
                    ),
                },
            }
        }
    }
}

/// The scanner with the secret and the point in two hexadecimal texts.
pub open spec fn scanner_from_hex(
    scan_secret_hex: Seq<char>,
    spend_pubkey_hex: Seq<char>,
) -> Result<ScannerView, ErrorView> {
    match secret_from_hex(scan_secret_hex, "Invalid scan key: "@) {
        Err(e) => Err(e),
        Ok(scan) => match point_from_hex(spend_pubkey_hex, "Invalid spend pubkey: "@) {
            Err(e) => Err(e),
            Ok(spend_public) => Ok(ScannerView { scan, spend_public }),
        },
    }
}

impl SilentPaymentScanner {
    #[verifier::type_invariant]
    spec fn keys_correspond(self) -> bool {
        self.scan_public@ == compressed_point(self.scan_secret@)
    }

    /// The scanner with a scan secret and a spend public key, both in hexadecimal digits.
    pub fn watch_only(scan_secret_hex: String, spend_pubkey_hex: String) -> (r: Result<
        Arc<SilentPaymentScanner>,
        SilentPaymentError,
    >)
        ensures
            meets(r, scanner_from_hex(scan_secret_hex@, spend_pubkey_hex@)),
            r matches Ok(scanner) ==> scanner@.wf(),
    {
        let scan_secret: SecretKey = match parse_secret_key(
            scan_secret_hex.as_str(),
            "Invalid scan key: ",
        ) {
            Ok(key) => key,
            Err(e) => return Err(e),
        };
        let spend_public: PublicKey = match parse_public_key(
            spend_pubkey_hex.as_str(),
            "Invalid spend pubkey: ",
        ) {
            Ok(key) => key,
            Err(e) => return Err(e),
        };
        let scan_public: PublicKey = PublicKey::from_secret_key(&scan_secret);
        Ok(Arc::new(SilentPaymentScanner { scan_secret, scan_public, spend_public }))
    }

    /// The standard address of the keys that the scanner holds.
    pub fn get_address(&self, network: Network) -> (r: SilentPaymentAddress)
        ensures
            r@ == address_of(self@.scan_public(), self@.spend_public, network),
            address_keys(r.address@) == Ok::<_, ErrorView>(
                (self@.scan_public(), self@.spend_public),
            ),
            (network.sp_network()@ + "1q"@).is_prefix_of(r.address@),
            is_key_text(r.scan_pubkey_hex@),
            is_key_text(r.spend_pubkey_hex@),
            self@.wf(),
    {
        proof {
            use_type_invariant(self);
            use_type_invariant(self.scan_secret);
            use_type_invariant(self.scan_public);
            use_type_invariant(self.spend_public);
        }
        build_address(&self.scan_public, &self.spend_public, network)
    }

    /// Looks for the outputs 0, 1 and so on under the shared point, until one is missing.
    fn find_plain(&self, ecdh_pubkey: &PublicKey, outputs: &Vec<String>) -> (r: Option<
        Result<ScanTransactionResult, SilentPaymentError>,
    >)
        ensures
            match plain_scan(self@.spend(), ecdh_pubkey@, texts(outputs@), 0) {
                None => r is None,
                Some(model) => r matches Some(outcome) && meets(outcome, model) && (outcome matches Ok(
                    found,
                ) ==> name_keys(found@, texts(outputs@))),
            },
    {
        let ghost spend = self@.spend();
        let ghost shared = ecdh_pubkey@;
        let ghost all = texts(outputs@);
        let mut payments: Vec<FoundPayment> = Vec::new();
        let mut k: u32 = 0;
        assert(payment_views(payments@) =~= Seq::empty());
        proof {
            lemma_prepend_nothing(plain_scan(spend, shared, all, 0));
        }
        loop
            invariant
                spend == self@.spend(),
                shared == ecdh_pubkey@,
                all == texts(outputs@),
                name_keys(payment_views(payments@), all),
                plain_scan(spend, shared, all, 0) == prepend(
                    payment_views(payments@),
                    plain_scan(spend, shared, all, k as nat),
                ),
            decreases u32::MAX - k,
        {
            let t_k: SecretKey = match compute_t_n(ecdh_pubkey, k) {
                Ok(key) => key,
                Err(e) => return Some(Err(e)),
            };
            let expected_pk: PublicKey = match compute_p_n(&self.spend_public, &t_k) {
                Ok(key) => key,
                Err(e) => return Some(Err(e)),
            };
            let (full, xonly): (String, String) = pubkey_to_hex_pair(&expected_pk);
            match match_output(outputs.as_slice(), full.as_str(), xonly.as_str()) {
                Some(vout) => {
                    let payment: FoundPayment = FoundPayment {
                        output_index: vout,
                        tweak_hex: hex_encode(t_k.secret_bytes().as_slice()),
                        amount_sats: 0,
                        label: None,
                    };
                    let ghost before = payment_views(payments@);
                    let ghost rest = plain_scan(spend, shared, all, k as nat + 1);
                    payments.push(payment);
                    proof {
                        assert(payment_views(payments@) =~= before + seq![payment@]);
                        lemma_prepend_twice(before, seq![payment@], rest);
                    }
                },
                None => {
                    assert(payment_views(payments@) + Seq::empty() =~= payment_views(payments@));
                    return Some(Ok(ScanTransactionResult { payments }));
                },
            }
            if k == u32::MAX {
                return None;
            }
            k = k + 1;
        }
    }

    /// The points of some labels.
    fn label_points(&self, labels: &Vec<u32>) -> (r: Result<
        Vec<(u32, PublicKey)>,
        SilentPaymentError,
    >)
        ensures
            match bad_label(self@.scan, labels@) {
                Some(m) => r matches Err(e) && e@ == ErrorView::CryptoError(label_error(m as nat)),
                None => r matches Ok(points) && are_label_points(self@.scan, labels@, points@),
            },
    {
        let mut points: Vec<(u32, PublicKey)> = Vec::new();
        let mut i: usize = 0;
        while i < labels.len()
            invariant
                i <= labels@.len(),
                bad_label(self@.scan, labels@.take(i as int)) is None,
                are_label_points(self@.scan, labels@.take(i as int), points@),
            decreases labels@.len() - i,
        {
            let m: u32 = labels[i];
            proof {
                let step = labels@.take(i + 1);
                assert(step.drop_last() =~= labels@.take(i as int));
                assert(step.last() == m);
            }
            match compute_label_pubkey(&self.scan_secret, m) {
                Ok(point) => points.push((m, point)),
                Err(e) => {
                    proof {
                        lemma_bad_label(self@.scan, labels@, i + 1);
                    }
                    return Err(e);
                },
            }
            i = i + 1;
        }
        assert(labels@.take(i as int) =~= labels@);
        Ok(points)
    }

    /// Looks for the output `k`, whose tweak and key are given, at the addresses of some labels.
    fn find_at_labels(
        &self,
        t_k: &SecretKey,
        p_k: &PublicKey,
        outputs: &Vec<String>,
        points: &Vec<(u32, PublicKey)>,
        payments: &mut Vec<FoundPayment>,
        Ghost(shared): Ghost<Seq<u8>>,
        Ghost(labels): Ghost<Seq<u32>>,
        Ghost(k): Ghost<nat>,
    ) -> (r: Result<(), SilentPaymentError>)
        requires
            output_error(self@.spend(), shared, k) is None,
            t_k@ == output_tweak(shared, k),
            p_k@ == compressed_point(output_log(self@.spend(), shared, k)),
            are_label_points(self@.scan, labels, points@),
            bad_label(self@.scan, labels) is None,
            name_keys(payment_views(old(payments)@), texts(outputs@)),
        ensures
            match labeled_payments(
                self@.scan,
                self@.spend(),
                shared,
                texts(outputs@),
                labels,
                k,
            ) {
                Err(m) => r matches Err(e) && e@ == m,
                Ok(found) => r is Ok && payment_views(final(payments)@) == payment_views(
                    old(payments)@,
                ) + found && name_keys(payment_views(final(payments)@), texts(outputs@)),
            },
    {
        let ghost scan = self@.scan;
        let ghost spend = self@.spend();
        let ghost all = texts(outputs@);
        let ghost before = payment_views(payments@);
        let ghost log = output_log(spend, shared, k);
        proof {
            use_type_invariant(p_k);
            lemma_log_of_point(log);
            assert(before + Seq::empty() =~= before);
        }
        let mut i: usize = 0;
        while i < points.len()
            invariant
                i <= points@.len(),
                scan == self@.scan,
                spend == self@.spend(),
                all == texts(outputs@),
                log == output_log(spend, shared, k),
                t_k@ == output_tweak(shared, k),
                point_log(p_k@) == log,
                are_label_points(scan, labels, points@),
                bad_label(scan, labels) is None,
                name_keys(payment_views(payments@), all),
                labeled_payments(scan, spend, shared, all, labels.take(i as int), k) is Ok,
                payment_views(payments@) == before + labeled_payments(
                    scan,
                    spend,
                    shared,
                    all,
                    labels.take(i as int),
                    k,
                )->Ok_0,
            decreases points@.len() - i,
        {
            let (m, label_pk): (u32, PublicKey) = points[i];
            let ghost found = labeled_payments(
                scan,
                spend,
                shared,
                all,
                labels.take(i as int),
                k,
            )->Ok_0;
            proof {
                let step = labels.take(i + 1);
                assert(step.drop_last() =~= labels.take(i as int));
                assert(step.last() == m);
                use_type_invariant(label_pk);
                lemma_good_label(scan, labels, i as int);
                lemma_log_of_point(label_tweak(scan, m as nat));
            }
            let p_k_m: PublicKey = match p_k.combine(&label_pk) {
                Ok(key) => key,
                Err(text) => {
                    proof {
                        lemma_labeled_payments_error(scan, spend, shared, all, labels, k, i + 1);
                    }
                    let head: String = join3(
                        "Point addition failed for label ",
                        decimal_text(m).as_str(),
                        ": ",
                    );
                    return Err(crypto_error(join(head.as_str(), text.as_str()).as_str()));
                },
            };
            let (full, xonly): (String, String) = pubkey_to_hex_pair(&p_k_m);
            if let Some(vout) = match_output(outputs.as_slice(), full.as_str(), xonly.as_str()) {
                let payment: FoundPayment = FoundPayment {
                    output_index: vout,
                    tweak_hex: hex_encode(t_k.secret_bytes().as_slice()),
                    amount_sats: 0,
                    label: Some(m),
                };
                let ghost so_far = payment_views(payments@);
                payments.push(payment);
                assert(payment_views(payments@) =~= so_far.push(payment@));
                assert(payment_views(payments@) =~= before + found.push(payment@));
            }
            i = i + 1;
        }
        assert(labels.take(i as int) =~= labels);
        Ok(())
    }

    /// Looks for the outputs 0, 1 and so on under the shared point, at the standard address and at
    /// those of some labels, until one is missing.
    fn find_labeled(
        &self,
        ecdh_pubkey: &PublicKey,
        outputs: &Vec<String>,
        points: &Vec<(u32, PublicKey)>,
        Ghost(labels): Ghost<Seq<u32>>,
    ) -> (r: Option<Result<ScanTransactionResult, SilentPaymentError>>)
        requires
            are_label_points(self@.scan, labels, points@),
            bad_label(self@.scan, labels) is None,
        ensures
            match labeled_scan(
                self@.scan,
                self@.spend(),
                ecdh_pubkey@,
                texts(outputs@),
                labels,
                0,
            ) {
                None => r is None,
                Some(model) => r matches Some(outcome) && meets(outcome, model) && (outcome matches Ok(
                    found,
                ) ==> name_keys(found@, texts(outputs@))),
            },
    {
        let ghost scan = self@.scan;
        let ghost spend = self@.spend();
        let ghost shared = ecdh_pubkey@;
        let ghost all = texts(outputs@);
        let mut payments: Vec<FoundPayment> = Vec::new();
        let mut k: u32 = 0;
        assert(payment_views(payments@) =~= Seq::empty());
        proof {
            lemma_prepend_nothing(labeled_scan(scan, spend, shared, all, labels, 0));
        }
        loop
            invariant
                scan == self@.scan,
                spend == self@.spend(),
                shared == ecdh_pubkey@,
                all == texts(outputs@),
                are_label_points(scan, labels, points@),
                bad_label(scan, labels) is None,
                name_keys(payment_views(payments@), all),
                labeled_scan(scan, spend, shared, all, labels, 0) == prepend(
                    payment_views(payments@),
                    labeled_scan(scan, spend, shared, all, labels, k as nat),
                ),
            decreases u32::MAX - k,
        {
            let t_k: SecretKey = match compute_t_n(ecdh_pubkey, k) {
                Ok(key) => key,
                Err(e) => return Some(Err(e)),
            };
            let p_k: PublicKey = match compute_p_n(&self.spend_public, &t_k) {
                Ok(key) => key,
                Err(e) => return Some(Err(e)),
            };
            let (full, xonly): (String, String) = pubkey_to_hex_pair(&p_k);
            let count: usize = payments.len();
            let ghost before = payment_views(payments@);
            let ghost unlabeled = unlabeled_payment(spend, shared, all, k as nat);
            if let Some(vout) = match_output(outputs.as_slice(), full.as_str(), xonly.as_str()) {
                let payment: FoundPayment = FoundPayment {
                    output_index: vout,
                    tweak_hex: hex_encode(t_k.secret_bytes().as_slice()),
                    amount_sats: 0,
                    label: None,
                };
                payments.push(payment);
                assert(unlabeled =~= seq![payment@]);
            }
            assert(payment_views(payments@) =~= before + unlabeled);
            match self.find_at_labels(
                &t_k,
                &p_k,
                outputs,
                points,
                &mut payments,
                Ghost(shared),
                Ghost(labels),
                Ghost(k as nat),
            ) {
                Ok(()) => {},
                Err(e) => return Some(Err(e)),
            }
            let ghost labeled = labeled_payments(
                scan,
                spend,
                shared,
                all,
                labels,
                k as nat,
            )->Ok_0;
            assert(payment_views(payments@) =~= before + (unlabeled + labeled));
            assert(payments@.len() == payment_views(payments@).len());
            if payments.len() == count {
                assert(payment_views(payments@) + Seq::empty() =~= payment_views(payments@));
                return Some(Ok(ScanTransactionResult { payments }));
            }
            proof {
                lemma_prepend_twice(
                    before,
                    unlabeled + labeled,
                    labeled_scan(scan, spend, shared, all, labels, k as nat + 1),
                );
            }
            if k == u32::MAX {
                return None;
            }
            k = k + 1;
        }
    }

    /// The point shared with the sender whose tweak data is given in hexadecimal digits.
    fn shared_with(&self, tweak_data_hex: &str) -> (r: Result<PublicKey, SilentPaymentError>)
        ensures
            match point_from_hex(tweak_data_hex@, "Invalid compressed pubkey: "@) {
                Ok(point) => r matches Ok(key) && key@ == self@.shared(point),
                Err(m) => r matches Err(e) && e@ == m,
            },
    {
        let tweak_data: PublicKey = match parse_pubkey_33(tweak_data_hex) {
            Ok(key) => key,
            Err(e) => return Err(e),
        };
        ecdh_point(&tweak_data, &self.scan_secret)
    }

    /// Scans a transaction for payments to the standard address.
    ///
    /// The first of `sender_input_pubkeys_hex` is the tweak data of the transaction, a compressed
    /// public key. The outputs are listed by their compressed or by their x-only keys.
    pub fn scan_transaction(
        &self,
        sender_input_pubkeys_hex: Vec<String>,
        tx_output_pubkeys_hex: Vec<String>,
    ) -> (r: Result<ScanTransactionResult, SilentPaymentError>)
        requires
            self@.scan_plain(
                texts(sender_input_pubkeys_hex@),
                texts(tx_output_pubkeys_hex@),
            ) is Some,
        ensures
            meets(
                r,
                self@.scan_plain(
                    texts(sender_input_pubkeys_hex@),
                    texts(tx_output_pubkeys_hex@),
                ).unwrap(),
            ),
            r matches Ok(found) ==> name_keys(found@, texts(tx_output_pubkeys_hex@)),
    {
        if sender_input_pubkeys_hex.len() == 0 {
            return Err(
                invalid_key(
                    "sender_input_pubkeys_hex must contain at least one entry (the Frigate tweak key)",
                ),
            );
        }
        let ecdh_pubkey: PublicKey = match self.shared_with(sender_input_pubkeys_hex[0].as_str()) {
            Ok(key) => key,
            Err(e) => return Err(e),
        };
        self.find_plain(&ecdh_pubkey, &tx_output_pubkeys_hex).unwrap()
    }

    /// Scans a transaction for payments to the standard address, or returns `None` if so many
    /// outputs follow each other that they cannot be counted.
    pub fn try_scan_transaction(
        &self,
        sender_input_pubkeys_hex: Vec<String>,
        tx_output_pubkeys_hex: Vec<String>,
    ) -> (r: Option<Result<ScanTransactionResult, SilentPaymentError>>)
        ensures
            match self@.scan_plain(
                texts(sender_input_pubkeys_hex@),
                texts(tx_output_pubkeys_hex@),
            ) {
                None => r is None,
                Some(model) => r matches Some(outcome) && meets(outcome, model) && (outcome matches Ok(
                    found,
                ) ==> name_keys(found@, texts(tx_output_pubkeys_hex@))),
            },
    {
        if sender_input_pubkeys_hex.len() > 0 {
            if let Ok(ecdh_pubkey) = self.shared_with(sender_input_pubkeys_hex[0].as_str()) {
                if self.find_plain(&ecdh_pubkey, &tx_output_pubkeys_hex).is_none() {
                    return None;
                }
            }
        }
        Some(self.scan_transaction(sender_input_pubkeys_hex, tx_output_pubkeys_hex))
    }

    /// Scans a transaction for payments to the standard address and to those of some labels, in one
    /// pass. The label of a payment tells which address received it.
    pub fn scan_transaction_with_labels(
        &self,
        sender_input_pubkeys_hex: Vec<String>,
        tx_output_pubkeys_hex: Vec<String>,
        labels: Vec<u32>,
    ) -> (r: Result<ScanTransactionResult, SilentPaymentError>)
        requires
            self@.scan_labeled(
                texts(sender_input_pubkeys_hex@),
                texts(tx_output_pubkeys_hex@),
                labels@,
            ) is Some,
        ensures
            meets(
                r,
                self@.scan_labeled(
                    texts(sender_input_pubkeys_hex@),
                    texts(tx_output_pubkeys_hex@),
                    labels@,
                ).unwrap(),
            ),
            r matches Ok(found) ==> name_keys(found@, texts(tx_output_pubkeys_hex@)),
    {
        if sender_input_pubkeys_hex.len() == 0 {
            return Err(invalid_key("sender_input_pubkeys_hex must not be empty"));
        }
        let ecdh_pubkey: PublicKey = match self.shared_with(sender_input_pubkeys_hex[0].as_str()) {
            Ok(key) => key,
            Err(e) => return Err(e),
        };
        let points: Vec<(u32, PublicKey)> = match self.label_points(&labels) {
            Ok(points) => points,
            Err(e) => return Err(e),
        };
        self.find_labeled(
            &ecdh_pubkey,
            &tx_output_pubkeys_hex,
            &points,
            Ghost(labels@),
        ).unwrap()
    }

    /// Scans a transaction for payments to the standard address and to those of some labels, or
    /// returns `None` if so many outputs follow each other that they cannot be counted.
    pub fn try_scan_transaction_with_labels(
        &self,
        sender_input_pubkeys_hex: Vec<String>,
        tx_output_pubkeys_hex: Vec<String>,
        labels: Vec<u32>,
    ) -> (r: Option<Result<ScanTransactionResult, SilentPaymentError>>)
        ensures
            match self@.scan_labeled(
                texts(sender_input_pubkeys_hex@),
                texts(tx_output_pubkeys_hex@),
                labels@,
            ) {
                None => r is None,
                Some(model) => r matches Some(outcome) && meets(outcome, model) && (outcome matches Ok(
                    found,
                ) ==> name_keys(found@, texts(tx_output_pubkeys_hex@))),
            },
    {
        if sender_input_pubkeys_hex.len() > 0 {
            if let Ok(ecdh_pubkey) = self.shared_with(sender_input_pubkeys_hex[0].as_str()) {
                if let Ok(points) = self.label_points(&labels) {
                    if self.find_labeled(
                        &ecdh_pubkey,
                        &tx_output_pubkeys_hex,
                        &points,
                        Ghost(labels@),
                    ).is_none() {
                        return None;
                    }
                }
            }
        }
        Some(
            self.scan_transaction_with_labels(
                sender_input_pubkeys_hex,
                tx_output_pubkeys_hex,
                labels,
            ),
        )
    }
}

/// Whether `points` holds the labels in order, each with its point.
spec fn are_label_points(scan: nat, labels: Seq<u32>, points: Seq<(u32, PublicKey)>) -> bool {
    &&& points.len() == labels.len()
    &&& forall|i: int|
        0 <= i < labels.len() ==> (#[trigger] points[i]).0 == labels[i] && points[i].1@
            == compressed_point(label_tweak(scan, labels[i] as nat))
}

/// If one of the first `n` labels is bad, it is the one of the whole list.
proof fn lemma_bad_label(scan: nat, labels: Seq<u32>, n: int)
    requires
        0 <= n <= labels.len(),
        bad_label(scan, labels.take(n)) is Some,
    ensures
        bad_label(scan, labels) == bad_label(scan, labels.take(n)),
    decreases labels.len() - n,
{
    if n == labels.len() {
        assert(labels.take(n) =~= labels);
    } else {
        assert(labels.take(n + 1).drop_last() =~= labels.take(n));
        lemma_bad_label(scan, labels, n + 1);
    }
}

/// If no label is bad, the number of each is a secret key.
pub proof fn lemma_good_label(scan: nat, labels: Seq<u32>, i: int)
    requires
        bad_label(scan, labels) is None,
        0 <= i < labels.len(),
    ensures
        is_secret(label_tweak(scan, labels[i] as nat)),
    decreases labels.len(),
{
    if i < labels.len() - 1 {
        lemma_good_label(scan, labels.drop_last(), i);
    }
}

/// If the search at the first `n` labels fails, that at all of them fails for the same reason.
proof fn lemma_labeled_payments_error(
    scan: nat,
    spend: nat,
    shared: Seq<u8>,
    outputs: Seq<Seq<char>>,
    labels: Seq<u32>,
    k: nat,
    n: int,
)
    requires
        0 <= n <= labels.len(),
        labeled_payments(scan, spend, shared, outputs, labels.take(n), k) is Err,
    ensures
        labeled_payments(scan, spend, shared, outputs, labels, k) == labeled_payments(
            scan,
            spend,
            shared,
            outputs,
            labels.take(n),
            k,
        ),
    decreases labels.len() - n,
{
    if n == labels.len() {
        assert(labels.take(n) =~= labels);
    } else {
        assert(labels.take(n + 1).drop_last() =~= labels.take(n));
        lemma_labeled_payments_error(scan, spend, shared, outputs, labels, k, n + 1);
    }
}

/// Nothing, put before the outcome of a scan, leaves it as it is.
proof fn lemma_prepend_nothing(rest: Option<Result<Seq<FoundPaymentView>, ErrorView>>)
    ensures
        prepend(Seq::empty(), rest) == rest,
{
    if let Some(Ok(more)) = rest {
        assert(Seq::empty() + more =~= more);
    }
}

/// To put two lists before the outcome of a scan is to put their concatenation before it.
proof fn lemma_prepend_twice(
    a: Seq<FoundPaymentView>,
    b: Seq<FoundPaymentView>,
    rest: Option<Result<Seq<FoundPaymentView>, ErrorView>>,
)
    ensures
        prepend(a, prepend(b, rest)) == prepend(a + b, rest),
{
    if let Some(Ok(more)) = rest {
        assert(a + (b + more) =~= a + b + more);
    }
}

} // verus!
