//! Which keys a recipient is restored with, on every input.

use crate::bytes::{be_bytes, be_nat};
use crate::curve::{compressed_point, curve_order};
use crate::error::ErrorView;
use crate::hash::hmac_sha512;
use crate::keys::{
    bip352_path, bip39_seed, path_children, path_text, seed_root, Descriptor, DescriptorSecretKey,
    DescriptorSecretKeyView, ExtendedKey, ExtendedKeyView,
};
use crate::laws::numbers::law_four_bytes;
use crate::laws::restoring::lemma_not_too_deep;
use crate::network::{Network, NetworkKind};
use crate::recipient::{
    recipient_from_descriptor, recipient_from_phrase, recipient_from_root, RecipientView,
};
use crate::text::decimal;
use vstd::prelude::*;
use vstd::utf8::{encode_utf8, is_ascii_chars_encode_utf8};

verus! {

/// The models of keys and descriptors keep what they are made of, every item and in order.
pub proof fn law_key_models(xkey: ExtendedKey, has_origin: bool, descriptor: Descriptor, i: int)
    ensures
        xkey@.network == xkey.network,
        xkey@.depth == xkey.depth,
        xkey@.chain_code == xkey.chain_code@,
        xkey@.key == xkey.private_key@,
        DescriptorSecretKey::Single@ == DescriptorSecretKeyView::Single,
        DescriptorSecretKey::MultiXPrv@ == DescriptorSecretKeyView::MultiXPrv,
        (DescriptorSecretKey::XPrv { has_origin, xkey })@ == (DescriptorSecretKeyView::XPrv {
            has_origin,
            xkey: xkey@,
        }),
        descriptor@.len() == descriptor.key_map@.len(),
        0 <= i < descriptor.key_map@.len() ==> descriptor@[i] == descriptor.key_map@[i]@,
{
}

/// One step of a derivation, as BIP-32 has it. The code is the HMAC-SHA-512 of the chain code over
/// a zero byte and the secret key for a hardened step, over the public key for another, and over the
/// four bytes of the step. The first half of the code plus the key is the key of the child, modulo
/// the order of the curve; the second half is its chain code.
pub proof fn law_derivation_step(parent: ExtendedKeyView, i: u32)
    ensures
        ({
            let number = seq![
                (i as nat / 0x100_0000) as u8,
                (i as nat / 0x1_0000 % 0x100) as u8,
                (i as nat / 0x100 % 0x100) as u8,
                (i as nat % 0x100) as u8,
            ];
            let code = hmac_sha512(
                parent.chain_code,
                if i < 0x8000_0000 {
                    compressed_point(parent.key) + number
                } else {
                    seq![0u8] + be_bytes(parent.key, 32) + number
                },
            );
            let left = be_nat(code.subrange(0, 32));
            let sum = (left + parent.key) % curve_order();
            &&& left == 0 || left >= curve_order() || sum == 0 ==> parent.descendant(
                seq![i],
            ) is None
            &&& 0 < left < curve_order() && sum != 0 && parent.depth < 255 ==> parent.descendant(
                seq![i],
            ) == Some(
                Ok::<_, Seq<char>>(
                    ExtendedKeyView {
                        network: parent.network,
                        depth: parent.depth + 1,
                        chain_code: code.subrange(32, code.len() as int),
                        key: sum,
                    },
                ),
            )
            &&& 0 < left < curve_order() && sum != 0 && parent.depth >= 255 ==> parent.descendant(
                seq![i],
            ) == Some(Err::<ExtendedKeyView, _>("cannot derive child of depth 256 or higher"@))
        }),
{
    law_four_bytes(i as nat);
    reveal_with_fuel(ExtendedKeyView::descendant, 2);
    assert(seq![i].drop_last() =~= Seq::<u32>::empty());
    assert(seq![i].last() == i);
}

/// A path is derived step by step: first its front, then its back from where the front leads. An
/// empty path leads nowhere else.
pub proof fn law_derivation_path(root: ExtendedKeyView, front: Seq<u32>, back: Seq<u32>)
    ensures
        root.descendant(Seq::empty()) == Some(Ok::<_, Seq<char>>(root)),
        root.descendant(front + back) == match root.descendant(front) {
            Some(Ok(key)) => key.descendant(back),
            other => other,
        },
    decreases back.len(),
{
    if back.len() == 0 {
        assert(front + back =~= front);
    } else {
        law_derivation_path(root, front, back.drop_last());
        assert((front + back).drop_last() =~= front + back.drop_last());
        assert((front + back).last() == back.last());
    }
}

/// The path of a secret of a recipient, as text and as child numbers: the purpose 352, the coin type
/// of the network and the account that is asked for, all hardened, then the branch and 0. Two
/// accounts have different third child numbers.
pub proof fn law_bip352_path(network: Network, account: u32, branch: u32)
    requires
        account < 0x8000_0000,
        branch < 0x8000_0000,
    ensures
        path_children(bip352_path(network, account, branch)) == Ok::<_, Seq<char>>(
            seq![
                0x8000_0160u32,
                (if network == Network::Bitcoin {
                    0x8000_0000u32
                } else {
                    0x8000_0001u32
                }),
                (0x8000_0000 + account) as u32,
                branch,
                0u32,
            ],
        ),
        path_text(bip352_path(network, account, branch)) == "m/352h/"@ + decimal(
            if network == Network::Bitcoin {
                0
            } else {
                1
            },
        ) + "h/"@ + decimal(account as nat) + "h/"@ + decimal(branch as nat) + "/0"@,
{
    let path = bip352_path(network, account, branch);
    let p4 = path.drop_last();
    let p3 = p4.drop_last();
    let p2 = p3.drop_last();
    let p1 = p2.drop_last();
    let p0 = p1.drop_last();
    assert(p0.len() == 0);
    let coin: nat = if network == Network::Bitcoin {
        0
    } else {
        1
    };
    reveal_with_fuel(path_children, 6);
    assert(path_children(p1)->Ok_0 =~= seq![0x8000_0160u32]);
    assert(path_children(path)->Ok_0 =~= seq![
        0x8000_0160u32,
        (0x8000_0000 + coin) as u32,
        (0x8000_0000 + account) as u32,
        branch,
        0u32,
    ]);
    reveal_strlit("m");
    reveal_strlit("/");
    reveal_strlit("h");
    reveal_strlit("");
    reveal_strlit("h/");
    reveal_strlit("/0");
    reveal_strlit("m/352h/");
    reveal_with_fuel(decimal, 4);
    assert(decimal(352) =~= seq!['3', '5', '2']);
    assert(decimal(0) =~= seq!['0']);
    assert(path_text(p0) == "m"@);
    assert(path_text(p1) + "/"@ =~= "m/352h/"@);
    assert(path_text(p2) == path_text(p1) + "/"@ + decimal(coin) + "h"@);
    assert(path_text(p3) == path_text(p2) + "/"@ + decimal(account as nat) + "h"@);
    assert(path_text(p4) == path_text(p3) + "/"@ + decimal(branch as nat) + ""@);
    assert(path_text(path) == path_text(p4) + "/"@ + decimal(0) + ""@);
    let a = "m/352h/"@ + decimal(coin);
    assert(path_text(p2) + "/"@ =~= a + "h/"@);
    let b = a + "h/"@ + decimal(account as nat);
    assert(path_text(p3) + "/"@ =~= b + "h/"@);
    let c = b + "h/"@ + decimal(branch as nat);
    assert(path_text(p4) =~= c);
    assert(path_text(path) =~= c + "/0"@);
}

/// The recipient that a root key restores: its spend secret is the key at the end of the path with
/// the branch 0, its scan secret that with the branch 1, both for the account that is asked for. There
/// is no outcome only if one of the two paths leads to no key.
pub proof fn law_restored_recipient(root: ExtendedKeyView, network: Network, account: u32)
    requires
        root.depth == 0,
        account < 0x8000_0000,
    ensures
        ({
            let coin: u32 = if network == Network::Bitcoin {
                0x8000_0000
            } else {
                0x8000_0001
            };
            let third = (0x8000_0000 + account) as u32;
            let spend = root.descendant(seq![0x8000_0160u32, coin, third, 0u32, 0u32]);
            let scan = root.descendant(seq![0x8000_0160u32, coin, third, 1u32, 0u32]);
            let restored = recipient_from_root(
                DescriptorSecretKeyView::XPrv { has_origin: false, xkey: root },
                network,
                account,
            );
            match (spend, scan) {
                (Some(Ok(b)), Some(Ok(a))) => restored == Some(
                    Ok::<_, ErrorView>(RecipientView { scan: a.key, spend: b.key, network }),
                ),
                (Some(Ok(_)), None) => restored is None,
                (None, _) => restored is None,
                _ => false,
            }
        }),
{
    law_bip352_path(network, account, 0);
    law_bip352_path(network, account, 1);
    lemma_not_too_deep(root, path_children(bip352_path(network, account, 0))->Ok_0);
    lemma_not_too_deep(root, path_children(bip352_path(network, account, 1))->Ok_0);
}

/// A key is refused if it is no extended key, if it carries its origin, or if it is below its root; it
/// is told which.
pub proof fn law_root_refusal(
    xkey: ExtendedKeyView,
    has_origin: bool,
    network: Network,
    account: u32,
)
    ensures
        recipient_from_root(DescriptorSecretKeyView::Single, network, account) == Some(
            Err::<RecipientView, _>(
                ErrorView::InvalidKey(
                    "Silent Payments require an extended (xprv) key, not a single non-extended key."@,
                ),
            ),
        ),
        recipient_from_root(DescriptorSecretKeyView::MultiXPrv, network, account) == Some(
            Err::<RecipientView, _>(
                ErrorView::InvalidKey(
                    "Multi-path extended keys are not supported for Silent Payments."@,
                ),
            ),
        ),
        has_origin ==> recipient_from_root(
            DescriptorSecretKeyView::XPrv { has_origin, xkey },
            network,
            account,
        ) == Some(
            Err::<RecipientView, _>(
                ErrorView::InvalidKey(
                    "Key carries origin/fingerprint metadata — it has already been derived away from its root. Silent Payments must derive from the SAME root as your BDK wallet: pass the DescriptorSecretKey from DescriptorSecretKey::new(...) directly, before any BIP-84/BIP-86 derivation."@,
                ),
            ),
        ),
        !has_origin && xkey.depth > 0 ==> recipient_from_root(
            DescriptorSecretKeyView::XPrv { has_origin, xkey },
            network,
            account,
        ) == Some(
            Err::<RecipientView, _>(
                ErrorView::InvalidKey(
                    "Expected a root-level key (depth 0), found depth "@ + decimal(xkey.depth)
                        + ". This key has already been derived and cannot be used to reach a different BIP-352 branch of the same seed."@,
                ),
            ),
        ),
{
}

/// The root key of a seed: the HMAC-SHA-512 of `Bitcoin seed`, given by its characters in ASCII, over
/// the seed gives the key in its first half and the chain code in its second.
pub proof fn law_seed_root(network: NetworkKind, seed: Seq<u8>)
    ensures
        ({
            let code = hmac_sha512(
                seq![0x42u8, 0x69, 0x74, 0x63, 0x6f, 0x69, 0x6e, 0x20, 0x73, 0x65, 0x65, 0x64],
                seed,
            );
            let key = be_nat(code.subrange(0, 32));
            &&& 0 < key < curve_order() ==> seed_root(network, seed) == Some(
                ExtendedKeyView {
                    network,
                    depth: 0,
                    chain_code: code.subrange(32, code.len() as int),
                    key,
                },
            )
            &&& key == 0 || key >= curve_order() ==> seed_root(network, seed) is None
        }),
{
    reveal_strlit("Bitcoin seed");
    let text = "Bitcoin seed"@;
    is_ascii_chars_encode_utf8(text);
    assert(encode_utf8(text) =~= seq![
        0x42u8, 0x69, 0x74, 0x63, 0x6f, 0x69, 0x6e, 0x20, 0x73, 0x65, 0x65, 0x64,
    ]);
}

/// A phrase restores the recipient of the root key of its seed, without a passphrase; a text that is
/// no phrase is refused.
pub proof fn law_restored_from_phrase(phrase: Seq<char>, network: Network, account: u32)
    ensures
        match bip39_seed(phrase, Seq::empty()) {
            Err(text) => recipient_from_phrase(phrase, network, account) == Some(
                Err::<RecipientView, _>(
                    ErrorView::InvalidKey("Invalid BIP-39 mnemonic: "@ + text),
                ),
            ),
            Ok(seed) => match seed_root(
                if network == Network::Bitcoin {
                    NetworkKind::Main
                } else {
                    NetworkKind::Test
                },
                seed,
            ) {
                None => recipient_from_phrase(phrase, network, account) is None,
                Some(xkey) => recipient_from_phrase(phrase, network, account)
                    == recipient_from_root(
                    DescriptorSecretKeyView::XPrv { has_origin: false, xkey },
                    network,
                    account,
                ),
            },
        },
{
    reveal_strlit("");
    assert(""@ =~= Seq::<char>::empty());
}

/// A descriptor restores the recipient of its first secret key; one without secret keys is refused.
pub proof fn law_restored_from_descriptor(
    keys: Seq<DescriptorSecretKeyView>,
    network: Network,
    account: u32,
)
    ensures
        keys.len() > 0 ==> recipient_from_descriptor(keys, network, account) == recipient_from_root(
            keys[0],
            network,
            account,
        ),
        keys.len() == 0 ==> recipient_from_descriptor(keys, network, account) == Some(
            Err::<RecipientView, _>(
                ErrorView::InvalidKey(
                    "Descriptor has no embedded secret key — it appears to be watch-only (public-key-only). Silent Payments require access to the private key material."@,
                ),
            ),
        ),
{
}

} // verus!
