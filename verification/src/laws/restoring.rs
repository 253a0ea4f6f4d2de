//! Which keys restore a recipient, and that different ways lead to the same one.

use crate::error::ErrorView;
use crate::keys::{
    bip352_path, bip39_seed, path_children, seed_root, DescriptorSecretKeyView, ExtendedKeyView,
};
use crate::network::Network;
use crate::recipient::{
    recipient_from_descriptor, recipient_from_phrase, recipient_from_root, RecipientView,
};
use crate::text::decimal;
use vstd::prelude::*;

verus! {

/// A key that was derived is refused, whether or not it carries its origin.
pub proof fn law_derived_keys_are_refused(
    root: ExtendedKeyView,
    path: Seq<u32>,
    key: ExtendedKeyView,
    has_origin: bool,
    network: Network,
    account: u32,
)
    requires
        root.descendant(path) == Some(Ok::<_, Seq<char>>(key)),
        path.len() > 0,
    ensures
        recipient_from_root(
            DescriptorSecretKeyView::XPrv { has_origin, xkey: key },
            network,
            account,
        ) matches Some(Err(ErrorView::InvalidKey(_))),
{
    lemma_depth(root, path, key);
}

/// A derived key is as many steps deeper as its path is long.
proof fn lemma_depth(root: ExtendedKeyView, path: Seq<u32>, key: ExtendedKeyView)
    requires
        root.descendant(path) == Some(Ok::<_, Seq<char>>(key)),
    ensures
        key.depth == root.depth + path.len(),
    decreases path.len(),
{
    if path.len() > 0 {
        lemma_depth(root, path.drop_last(), root.descendant(path.drop_last()).unwrap()->Ok_0);
    }
}

/// A phrase and a descriptor whose first key is the root of the phrase restore one recipient.
pub proof fn law_phrase_and_descriptor_agree(
    phrase: Seq<char>,
    keys: Seq<DescriptorSecretKeyView>,
    network: Network,
    account: u32,
)
    requires
        bip39_seed(phrase, ""@) is Ok,
        seed_root(network.kind(), bip39_seed(phrase, ""@)->Ok_0) is Some,
        keys.len() > 0,
        keys[0] == (DescriptorSecretKeyView::XPrv {
            has_origin: false,
            xkey: seed_root(network.kind(), bip39_seed(phrase, ""@)->Ok_0).unwrap(),
        }),
    ensures
        recipient_from_phrase(phrase, network, account) == recipient_from_descriptor(
            keys,
            network,
            account,
        ),
        recipient_from_phrase(phrase, network, account) == recipient_from_root(
            keys[0],
            network,
            account,
        ),
{
}

/// The child numbers of the path of a recipient's secret, and when there are none.
proof fn lemma_bip352_path(network: Network, account: u32, branch: u32)
    requires
        branch < 0x8000_0000,
    ensures
        account < 0x8000_0000 ==> path_children(bip352_path(network, account, branch)) is Ok
            && path_children(bip352_path(network, account, branch))->Ok_0.len() == 5,
        account >= 0x8000_0000 ==> path_children(bip352_path(network, account, branch)) == Err::<
            Seq<u32>,
            _,
        >(
            "child number "@ + decimal(account as nat)
                + " is invalid (not within [0, 2^31 - 1])"@,
        ),
{
    let path = bip352_path(network, account, branch);
    reveal_with_fuel(path_children, 6);
    assert(path.drop_last() =~= path.take(4));
    assert(path.take(4).drop_last() =~= path.take(3));
    assert(path.take(3).drop_last() =~= path.take(2));
    assert(path.take(2).drop_last() =~= path.take(1));
    assert(path.take(1).drop_last() =~= path.take(0));
}

/// An account beyond the range of hardened indices is refused.
pub proof fn law_account_range(root: ExtendedKeyView, network: Network, account: u32)
    requires
        root.depth == 0,
        account >= 0x8000_0000,
    ensures
        recipient_from_root(
            DescriptorSecretKeyView::XPrv { has_origin: false, xkey: root },
            network,
            account,
        ) == Some(
            Err::<RecipientView, _>(
                ErrorView::CryptoError(
                    "Invalid derivation path: "@ + ("child number "@ + decimal(account as nat)
                        + " is invalid (not within [0, 2^31 - 1])"@),
                ),
            ),
        ),
{
    lemma_bip352_path(network, account, 0);
}

/// A path that is short enough does not go too deep.
pub proof fn lemma_not_too_deep(root: ExtendedKeyView, path: Seq<u32>)
    requires
        root.depth + path.len() <= 255,
    ensures
        !(root.descendant(path) matches Some(Err(_))),
    decreases path.len(),
{
    if path.len() > 0 {
        lemma_not_too_deep(root, path.drop_last());
        if let Some(Ok(parent)) = root.descendant(path.drop_last()) {
            lemma_depth(root, path.drop_last(), parent);
        }
    }
}

/// A root key restores a recipient for every account in range, but for the derivations, next to none,
/// that have no outcome.
pub proof fn law_root_keys_restore(root: ExtendedKeyView, network: Network, account: u32)
    requires
        root.depth == 0,
        account < 0x8000_0000,
        recipient_from_root(
            DescriptorSecretKeyView::XPrv { has_origin: false, xkey: root },
            network,
            account,
        ) is Some,
    ensures
        recipient_from_root(
            DescriptorSecretKeyView::XPrv { has_origin: false, xkey: root },
            network,
            account,
        ) matches Some(Ok(recipient)) && recipient.network == network,
{
    lemma_bip352_path(network, account, 0);
    lemma_bip352_path(network, account, 1);
    lemma_not_too_deep(root, path_children(bip352_path(network, account, 0))->Ok_0);
    lemma_not_too_deep(root, path_children(bip352_path(network, account, 1))->Ok_0);
}

/// A root key restores the same secrets on all test networks.
pub proof fn law_test_networks_share_secrets(
    root: ExtendedKeyView,
    a: Network,
    b: Network,
    account: u32,
)
    requires
        a != Network::Bitcoin,
        b != Network::Bitcoin,
    ensures
        root.bip352_secrets(a, account) == root.bip352_secrets(b, account),
{
    assert(bip352_path(a, account, 0) =~= bip352_path(b, account, 0));
    assert(bip352_path(a, account, 1) =~= bip352_path(b, account, 1));
}

} // verus!
