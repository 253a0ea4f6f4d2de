//! Key derivation: from a mnemonic or a descriptor to the two secrets of a recipient.

use crate::bytes::{be_bytes, be_nat, concat, u32_be_bytes};
use crate::curve::{add_mod, compressed_point, is_secret, PublicKey, SecretKey};
use crate::error::{crypto_error, invalid_key, meets, ErrorView, SilentPaymentError};
use crate::hash::{hmac_sha512, hmac_sha512_code};
use crate::network::{bip352_coin_type, Network, NetworkKind};
use crate::text::{decimal, decimal_text, join, join3};
use bdk_wallet::keys::DerivableKey;
use std::str::FromStr;
use vstd::prelude::*;
use vstd::utf8::encode_utf8;

verus! {

/// An extended private key: a secret key with the chain code that its children derive from.
#[derive(Clone, Copy)]
pub struct ExtendedKey {
    pub network: NetworkKind,
    /// How many derivations the key is away from its root.
    pub depth: u8,
    pub chain_code: [u8; 32],
    pub private_key: SecretKey,
}

/// The model of an extended private key.
#[verifier::ext_equal]
pub struct ExtendedKeyView {
    pub network: NetworkKind,
    pub depth: nat,
    pub chain_code: Seq<u8>,
    pub key: nat,
}

impl View for ExtendedKey {
    type V = ExtendedKeyView;

    open spec fn view(&self) -> ExtendedKeyView {
        ExtendedKeyView {
            network: self.network,
            depth: self.depth as nat,
            chain_code: self.chain_code@,
            key: self.private_key@,
        }
    }
}

/// The number in the first half of a code.
pub open spec fn left_number(code: Seq<u8>) -> nat {
    be_nat(code.take(32))
}

impl ExtendedKeyView {
    /// The code that the child `i` derives from. The upper half of the numbers is hardened: their
    /// code is made of the secret key, that of the others of the public key.
    pub open spec fn child_code(self, i: u32) -> Seq<u8> {
        hmac_sha512(
            self.chain_code,
            (if i >= 0x8000_0000 {
                seq![0u8] + be_bytes(self.key, 32)
            } else {
                compressed_point(self.key)
            }) + be_bytes(i as nat, 4),
        )
    }

    /// Whether there is a child `i`: next to never, the code gives no key.
    pub open spec fn has_child(self, i: u32) -> bool {
        &&& is_secret(left_number(self.child_code(i)))
        &&& add_mod(left_number(self.child_code(i)), self.key) != 0
    }

    /// The child `i`: the key is the sum of the code's first half and the parent's key.
    pub open spec fn child(self, i: u32) -> ExtendedKeyView {
        ExtendedKeyView {
            network: self.network,
            depth: self.depth + 1,
            chain_code: self.child_code(i).skip(32),
            key: add_mod(left_number(self.child_code(i)), self.key),
        }
    }

    /// The key at the end of a path, or the text of the error for a path that goes too deep. There
    /// is no outcome if there is no child at some step.
    pub open spec fn descendant(self, path: Seq<u32>) -> Option<Result<ExtendedKeyView, Seq<char>>>
        decreases path.len(),
    {
        if path.len() == 0 {
            Some(Ok(self))
        } else {
            match self.descendant(path.drop_last()) {
                Some(Ok(parent)) => if !parent.has_child(path.last()) {
                    None
                } else if parent.depth >= 255 {
                    Some(Err("cannot derive child of depth 256 or higher"@))
                } else {
                    Some(Ok(parent.child(path.last())))
                },
                other => other,
            }
        }
    }

    /// If the first `n` steps of a path do not lead to a key, the path does not.
    proof fn lemma_descendant_error(self, path: Seq<u32>, n: int)
        requires
            0 <= n <= path.len(),
            !(self.descendant(path.take(n)) matches Some(Ok(_))),
        ensures
            self.descendant(path) == self.descendant(path.take(n)),
        decreases path.len() - n,
    {
        if n == path.len() {
            assert(path.take(n) =~= path);
        } else {
            assert(path.take(n + 1).drop_last() =~= path.take(n));
            self.lemma_descendant_error(path, n + 1);
        }
    }
}

impl ExtendedKey {
    /// Calls `bitcoin::bip32::Xpriv::derive_priv` for one step.
    ///
    /// The child's key and chain code come from the HMAC-SHA-512 code of the parent, as BIP-32 has
    /// it; the network is not read, and kept. A key at the depth 255 is refused a child; that error
    /// is handed out as the text that it displays. A code that gives no key would end in a panic.
    #[verifier::external_body]
    fn derive_child(&self, i: u32) -> (r: Result<ExtendedKey, String>)
        requires
            self@.has_child(i),
        ensures
            match r {
                Ok(child) => self@.depth < 255 && child@ == self@.child(i),
                Err(text) => self@.depth == 255 && text@
                    == "cannot derive child of depth 256 or higher"@,
            },
    {
        let key = bdk_wallet::bitcoin::bip32::Xpriv {
            network: bdk_wallet::bitcoin::NetworkKind::Main,
            depth: self.depth,
            parent_fingerprint: Default::default(),
            child_number: bdk_wallet::bitcoin::bip32::ChildNumber::from(i),
            private_key: secp256k1::SecretKey::from_slice(&self.private_key.bytes).unwrap(),
            chain_code: self.chain_code.into(),
        };
        let child = key.derive_priv(&secp256k1::Secp256k1::new(), &key.child_number);
        child.map(|child| ExtendedKey {
            network: self.network,
            depth: child.depth,
            chain_code: child.chain_code.to_bytes(),
            private_key: SecretKey { bytes: child.private_key.secret_bytes() },
        }).map_err(|e| e.to_string())
    }

    /// The code that the child `i` derives from: the first half is added to the key, the second half
    /// is the chain code of the child.
    pub fn child_code(&self, i: u32) -> (r: [u8; 64])
        ensures
            r@ == self@.child_code(i),
    {
        let index: [u8; 4] = u32_be_bytes(i);
        let message: Vec<u8> = if i >= 0x8000_0000 {
            let zero: [u8; 1] = [0u8];
            assert(zero@ =~= seq![0u8]);
            let secret: Vec<u8> = concat(
                zero.as_slice(),
                self.private_key.secret_bytes().as_slice(),
            );
            concat(secret.as_slice(), index.as_slice())
        } else {
            let point: [u8; 33] = PublicKey::from_secret_key(&self.private_key).serialize();
            concat(point.as_slice(), index.as_slice())
        };
        hmac_sha512_code(self.chain_code.as_slice(), message.as_slice())
    }

    /// Whether there is a child `i`.
    fn can_derive(&self, i: u32) -> (r: bool)
        ensures
            r == self@.has_child(i),
    {
        let code: [u8; 64] = self.child_code(i);
        let left: &[u8] = vstd::slice::slice_subrange(code.as_slice(), 0, 32);
        assert(left@ =~= code@.take(32));
        match SecretKey::from_slice(left) {
            Ok(number) => number.add_tweak(&self.private_key.to_scalar()).is_ok(),
            Err(_) => false,
        }
    }

    /// The key at the end of a path, or `None` if there is no child at some step.
    pub fn derive(&self, path: &Vec<u32>) -> (r: Option<Result<ExtendedKey, String>>)
        ensures
            match self@.descendant(path@) {
                None => r is None,
                Some(Ok(key)) => r matches Some(Ok(k)) && k@ == key,
                Some(Err(m)) => r matches Some(Err(text)) && text@ == m,
            },
    {
        let mut key: ExtendedKey = *self;
        let mut n: usize = 0;
        while n < path.len()
            invariant
                n <= path@.len(),
                self@.descendant(path@.take(n as int)) == Some(
                    Ok::<ExtendedKeyView, Seq<char>>(key@),
                ),
            decreases path@.len() - n,
        {
            let i: u32 = path[n];
            proof {
                let step = path@.take(n + 1);
                assert(step.drop_last() =~= path@.take(n as int));
                assert(step.last() == i);
                if !key@.has_child(i) || key@.depth >= 255 {
                    self@.lemma_descendant_error(path@, n + 1);
                }
            }
            if !key.can_derive(i) {
                return None;
            }
            match key.derive_child(i) {
                Ok(child) => {
                    key = child;
                },
                Err(text) => return Some(Err(text)),
            }
            n = n + 1;
        }
        assert(path@.take(n as int) =~= path@);
        Some(Ok(key))
    }

    /// Calls `bdk_wallet::keys::DerivableKey::into_extended_key` on a seed, and
    /// `bdk_wallet::keys::ExtendedKey::into_xprv` on what it gives.
    ///
    /// The root key and its chain code are the two halves of the HMAC-SHA-512 code of the seed, as
    /// BIP-32 has it. A first half that is no secret key is refused.
    #[verifier::external_body]
    pub(crate) fn from_seed(network: NetworkKind, seed: [u8; 64]) -> (r: Option<ExtendedKey>)
        ensures
            match r {
                Some(key) => seed_root(network, seed@) == Some(key@),
                None => seed_root(network, seed@) is None,
            },
    {
        let kind = match network {
            NetworkKind::Main => bdk_wallet::bitcoin::NetworkKind::Main,
            NetworkKind::Test => bdk_wallet::bitcoin::NetworkKind::Test,
        };
        let key: bdk_wallet::keys::ExtendedKey<bdk_wallet::miniscript::Segwitv0> =
            seed.into_extended_key().ok()?;
        let root = key.into_xprv(kind)?;
        Some(
            ExtendedKey {
                network,
                depth: root.depth,
                chain_code: root.chain_code.to_bytes(),
                private_key: SecretKey { bytes: root.private_key.secret_bytes() },
            },
        )
    }
}

/// The root key of a seed. There is none if the first half of its code is no secret key.
pub open spec fn seed_root(network: NetworkKind, seed: Seq<u8>) -> Option<ExtendedKeyView> {
    let code = hmac_sha512(encode_utf8("Bitcoin seed"@), seed);
    if is_secret(left_number(code)) {
        Some(
            ExtendedKeyView {
                network,
                depth: 0,
                chain_code: code.skip(32),
                key: left_number(code),
            },
        )
    } else {
        None
    }
}

/// The seed of a mnemonic phrase with a passphrase, or the text of the error for another phrase.
pub uninterp spec fn bip39_seed(phrase: Seq<char>, passphrase: Seq<char>) -> Result<
    Seq<u8>,
    Seq<char>,
>;

/// Calls `bip39::Mnemonic::from_str`, and `bip39::Mnemonic::to_seed` on what it gives.
///
/// The seed is a function of the phrase and the passphrase, and so is the text that the error
/// displays.
#[verifier::external_body]
pub(crate) fn mnemonic_seed(phrase: &str, passphrase: &str) -> (r: Result<[u8; 64], String>)
    ensures
        match bip39_seed(phrase@, passphrase@) {
            Ok(bytes) => r matches Ok(seed) && seed@ == bytes,
            Err(m) => r matches Err(text) && text@ == m,
        },
{
    bdk_wallet::keys::bip39::Mnemonic::from_str(phrase).map(
        |mnemonic| mnemonic.to_seed(passphrase),
    ).map_err(|e| e.to_string())
}

/// A step of a derivation path: an index, and whether it is hardened.
pub struct PathStep {
    pub index: u32,
    pub hardened: bool,
}

/// The text of a derivation path.
pub open spec fn path_text(steps: Seq<PathStep>) -> Seq<char>
    decreases steps.len(),
{
    if steps.len() == 0 {
        "m"@
    } else {
        path_text(steps.drop_last()) + "/"@ + decimal(steps.last().index as nat) + (
        if steps.last().hardened {
            "h"@
        } else {
            ""@
        })
    }
}

/// The child numbers of a derivation path, or the text of the error for the first index that is out
/// of range.
pub open spec fn path_children(steps: Seq<PathStep>) -> Result<Seq<u32>, Seq<char>>
    decreases steps.len(),
{
    if steps.len() == 0 {
        Ok(Seq::empty())
    } else {
        match path_children(steps.drop_last()) {
            Err(e) => Err(e),
            Ok(children) => {
                let step = steps.last();
                if step.index >= 0x8000_0000 {
                    Err(
                        "child number "@ + decimal(step.index as nat)
                            + " is invalid (not within [0, 2^31 - 1])"@,
                    )
                } else if step.hardened {
                    Ok(children.push((step.index + 0x8000_0000) as u32))
                } else {
                    Ok(children.push(step.index))
                }
            },
        }
    }
}

/// Calls `bitcoin::bip32::DerivationPath::from_str`.
///
/// It reads the text of a path back, and refuses an index that is out of range; the error is handed
/// out as the text that it displays. Nothing is said of text that is not that of a path.
#[verifier::external_body]
fn parse_path(path: &str) -> (r: Result<Vec<u32>, String>)
    ensures
        forall|steps: Seq<PathStep>|
            path@ == #[trigger] path_text(steps) ==> match path_children(steps) {
                Ok(children) => r matches Ok(path) && path@ == children,
                Err(m) => r matches Err(text) && text@ == m,
            },
{
    let path = bdk_wallet::bitcoin::bip32::DerivationPath::from_str(path).map_err(
        |e| e.to_string(),
    )?;
    Ok(path.into_iter().map(|child| u32::from(*child)).collect())
}

/// The path of one of the two secrets of a recipient: the branch 0 is the spend key, 1 the scan key.
pub open spec fn bip352_path(network: Network, account: u32, branch: u32) -> Seq<PathStep> {
    seq![
        PathStep { index: 352, hardened: true },
        PathStep { index: network.coin_type(), hardened: true },
        PathStep { index: account, hardened: true },
        PathStep { index: branch, hardened: false },
        PathStep { index: 0, hardened: false },
    ]
}

/// The text of a path, followed by that of a further step.
fn append_step(path: &str, index: u32, hardened: bool) -> (r: String)
    ensures
        forall|steps: Seq<PathStep>| #[trigger]
            path_text(steps) == path@ ==> r@ == path_text(
                steps.push(PathStep { index, hardened }),
            ),
{
    let plain: String = join3(path, "/", decimal_text(index).as_str());
    let text: String = join(
        plain.as_str(),
        if hardened {
            "h"
        } else {
            ""
        },
    );
    proof {
        assert forall|steps: Seq<PathStep>| #[trigger] path_text(steps) == path@ implies text@
            == path_text(steps.push(PathStep { index, hardened })) by {
            let longer = steps.push(PathStep { index, hardened });
            assert(longer.drop_last() =~= steps);
            assert(longer.last() == PathStep { index, hardened });
        }
    }
    text
}

/// The text of the path of one of the two secrets of a recipient.
fn bip352_path_text(network: &Network, account: u32, branch: u32) -> (r: String)
    ensures
        r@ == path_text(bip352_path(*network, account, branch)),
{
    let ghost root = Seq::<PathStep>::empty();
    let purpose: String = append_step("m", 352, true);
    assert(path_text(root) == "m"@);
    let coin: String = append_step(purpose.as_str(), bip352_coin_type(network), true);
    let account_text: String = append_step(coin.as_str(), account, true);
    let branch_text: String = append_step(account_text.as_str(), branch, false);
    let path: String = append_step(branch_text.as_str(), 0, false);
    proof {
        let steps = root.push(PathStep { index: 352, hardened: true }).push(
            PathStep { index: network.coin_type(), hardened: true },
        ).push(PathStep { index: account, hardened: true }).push(
            PathStep { index: branch, hardened: false },
        ).push(PathStep { index: 0, hardened: false });
        assert(steps =~= bip352_path(*network, account, branch));
    }
    path
}

/// A secret key of a descriptor.
pub enum DescriptorSecretKey {
    /// A single key.
    Single,
    /// An extended key, and whether it carries the origin that it was derived from.
    XPrv { has_origin: bool, xkey: ExtendedKey },
    /// An extended key with several paths.
    MultiXPrv,
}

/// The model of a secret key of a descriptor.
pub enum DescriptorSecretKeyView {
    Single,
    XPrv { has_origin: bool, xkey: ExtendedKeyView },
    MultiXPrv,
}

impl View for DescriptorSecretKey {
    type V = DescriptorSecretKeyView;

    open spec fn view(&self) -> DescriptorSecretKeyView {
        match *self {
            DescriptorSecretKey::Single => DescriptorSecretKeyView::Single,
            DescriptorSecretKey::XPrv { has_origin, xkey } => DescriptorSecretKeyView::XPrv {
                has_origin,
                xkey: xkey@,
            },
            DescriptorSecretKey::MultiXPrv => DescriptorSecretKeyView::MultiXPrv,
        }
    }
}

/// A descriptor: the secret keys that are embedded in it, in the order of their public keys.
pub struct Descriptor {
    pub key_map: Vec<DescriptorSecretKey>,
}

impl View for Descriptor {
    type V = Seq<DescriptorSecretKeyView>;

    open spec fn view(&self) -> Seq<DescriptorSecretKeyView> {
        Seq::new(self.key_map@.len(), |i: int| self.key_map@[i]@)
    }
}

/// Why a key is not at the root of its tree, if it is not.
pub open spec fn root_error(key: DescriptorSecretKeyView) -> Option<ErrorView> {
    match key {
        DescriptorSecretKeyView::XPrv { has_origin, xkey } => if has_origin {
            Some(
                ErrorView::InvalidKey(
                    "Key carries origin/fingerprint metadata — it has already been derived away from its root. Silent Payments must derive from the SAME root as your BDK wallet: pass the DescriptorSecretKey from DescriptorSecretKey::new(...) directly, before any BIP-84/BIP-86 derivation."@,
                ),
            )
        } else if xkey.depth != 0 {
            Some(
                ErrorView::InvalidKey(
                    "Expected a root-level key (depth 0), found depth "@ + decimal(xkey.depth)
                        + ". This key has already been derived and cannot be used to reach a different BIP-352 branch of the same seed."@,
                ),
            )
        } else {
            None
        },
        DescriptorSecretKeyView::Single => Some(
            ErrorView::InvalidKey(
                "Silent Payments require an extended (xprv) key, not a single non-extended key."@,
            ),
        ),
        DescriptorSecretKeyView::MultiXPrv => Some(
            ErrorView::InvalidKey(
                "Multi-path extended keys are not supported for Silent Payments."@,
            ),
        ),
    }
}

/// Hands out an extended key that is at the root of its tree.
///
/// Derivation goes on from any key: from a key that was derived before it would lead to an address
/// that has nothing to do with the wallet.
pub fn ensure_root_level(secret_key: &DescriptorSecretKey) -> (r: Result<
    ExtendedKey,
    SilentPaymentError,
>)
    ensures
        match root_error(secret_key@) {
            Some(m) => r matches Err(e) && e@ == m,
            None => r matches Ok(key) && (DescriptorSecretKeyView::XPrv {
                has_origin: false,
                xkey: key@,
            }) == secret_key@ && key@.depth == 0,
        },
{
    match secret_key {
        DescriptorSecretKey::XPrv { has_origin, xkey } => {
            if *has_origin {
                return Err(
                    invalid_key(
                        "Key carries origin/fingerprint metadata — it has already been derived away from its root. Silent Payments must derive from the SAME root as your BDK wallet: pass the DescriptorSecretKey from DescriptorSecretKey::new(...) directly, before any BIP-84/BIP-86 derivation.",
                    ),
                );
            }
            if xkey.depth != 0 {
                return Err(
                    invalid_key(
                        join3(
                            "Expected a root-level key (depth 0), found depth ",
                            decimal_text(xkey.depth as u32).as_str(),
                            ". This key has already been derived and cannot be used to reach a different BIP-352 branch of the same seed.",
                        ).as_str(),
                    ),
                );
            }
            Ok(*xkey)
        },
        DescriptorSecretKey::Single => Err(
            invalid_key(
                "Silent Payments require an extended (xprv) key, not a single non-extended key.",
            ),
        ),
        DescriptorSecretKey::MultiXPrv => Err(
            invalid_key("Multi-path extended keys are not supported for Silent Payments."),
        ),
    }
}

impl ExtendedKeyView {
    /// The secret of a recipient on one of the two branches. There is no outcome if there is no
    /// child at some step.
    pub open spec fn bip352_secret(self, network: Network, account: u32, branch: u32) -> Option<
        Result<nat, ErrorView>,
    > {
        match path_children(bip352_path(network, account, branch)) {
            Err(m) => Some(Err(ErrorView::CryptoError("Invalid derivation path: "@ + m))),
            Ok(path) => match self.descendant(path) {
                None => None,
                Some(Err(m)) => Some(Err(ErrorView::CryptoError("Key derivation failed: "@ + m))),
                Some(Ok(key)) => Some(Ok(key.key)),
            },
        }
    }

    /// The scan and the spend secret of a recipient. There is no outcome if there is no child at
    /// some step.
    pub open spec fn bip352_secrets(self, network: Network, account: u32) -> Option<
        Result<(nat, nat), ErrorView>,
    > {
        match self.bip352_secret(network, account, 0) {
            None => None,
            Some(Err(e)) => Some(Err(e)),
            Some(Ok(spend)) => match self.bip352_secret(network, account, 1) {
                None => None,
                Some(Err(e)) => Some(Err(e)),
                Some(Ok(scan)) => Some(Ok((scan, spend))),
            },
        }
    }
}

/// The secret of a recipient on one of the two branches, or `None` if there is no child at some
/// step.
fn derive_branch(root_key: &ExtendedKey, network: &Network, account: u32, branch: u32) -> (r: Option<
    Result<SecretKey, SilentPaymentError>,
>)
    ensures
        match root_key@.bip352_secret(*network, account, branch) {
            None => r is None,
            Some(model) => r matches Some(outcome) && meets(outcome, model),
        },
{
    let path: Vec<u32> = match parse_path(bip352_path_text(network, account, branch).as_str()) {
        Ok(path) => path,
        Err(text) => return Some(
            Err(crypto_error(join("Invalid derivation path: ", text.as_str()).as_str())),
        ),
    };
    match root_key.derive(&path) {
        None => None,
        Some(Err(text)) => Some(
            Err(crypto_error(join("Key derivation failed: ", text.as_str()).as_str())),
        ),
        Some(Ok(key)) => Some(Ok(key.private_key)),
    }
}

/// The scan and the spend secret of a recipient, or `None` if there is no child at some step.
///
/// The spend secret is at `m/352'/coin'/account'/0/0`, the scan secret at
/// `m/352'/coin'/account'/1/0`.
pub fn derive_bip352_secret_keys(root_key: &ExtendedKey, network: &Network, account: u32) -> (r:
    Option<Result<(SecretKey, SecretKey), SilentPaymentError>>)
    ensures
        match root_key@.bip352_secrets(*network, account) {
            None => r is None,
            Some(model) => r matches Some(outcome) && meets(outcome, model),
        },
{
    let spend_secret: SecretKey = match derive_branch(root_key, network, account, 0) {
        None => return None,
        Some(Err(e)) => return Some(Err(e)),
        Some(Ok(key)) => key,
    };
    match derive_branch(root_key, network, account, 1) {
        None => None,
        Some(Err(e)) => Some(Err(e)),
        Some(Ok(scan_secret)) => Some(Ok((scan_secret, spend_secret))),
    }
}

} // verus!
