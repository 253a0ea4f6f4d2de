//! What the numbers of the protocol are, byte for byte.

use crate::bip352::{label_tweak, output_tweak};
use crate::bytes::{be_bytes, be_nat, lemma_be_bytes_of_nat};
use crate::curve::{
    add_mod, compressed_point, curve_order, is_log, is_point, is_secret, lemma_point_log, mul_mod,
    point_log,
};
use crate::hash::sha256;
use vstd::arithmetic::div_mod::{lemma_fundamental_div_mod, lemma_mod_multiples_basic};
use vstd::arithmetic::power::{lemma_pow0, pow};
use vstd::prelude::*;
use vstd::utf8::{encode_utf8, is_ascii_chars_encode_utf8};

verus! {

/// A byte string stands for the sum of its bytes, each times the power of 256 of its place: the
/// number of a concatenation is that of the front, moved up by the length of the back, plus that of
/// the back.
pub proof fn law_number_of_bytes(front: Seq<u8>, back: Seq<u8>, byte: u8)
    ensures
        be_nat(Seq::<u8>::empty()) == 0,
        be_nat(seq![byte]) == byte,
        be_nat(front + back) == be_nat(front) * pow(256, back.len()) + be_nat(back),
    decreases back.len(),
{
    assert(seq![byte].drop_last() =~= Seq::<u8>::empty());
    reveal(pow);
    if back.len() == 0 {
        lemma_pow0(256);
        assert(front + back =~= front);
    } else {
        let shorter = back.drop_last();
        law_number_of_bytes(front, shorter, byte);
        assert((front + back).drop_last() =~= front + shorter);
        assert((front + back).last() == back.last());
        let x = be_nat(front) as int;
        let p = pow(256, shorter.len());
        assert(256 * (x * p) == x * (256 * p)) by (nonlinear_arith);
    }
}

/// The four bytes of a number, most significant first.
pub proof fn law_four_bytes(v: nat)
    requires
        v < 0x1_0000_0000,
    ensures
        be_bytes(v, 4) == seq![
            (v / 0x100_0000) as u8,
            (v / 0x1_0000 % 0x100) as u8,
            (v / 0x100 % 0x100) as u8,
            (v % 0x100) as u8,
        ],
{
    reveal_with_fuel(be_bytes, 5);
    assert(v / 256 / 256 == v / 0x1_0000);
    assert(v / 256 / 256 / 256 == v / 0x100_0000);
    assert(be_bytes(v, 4) =~= seq![
        (v / 0x100_0000) as u8,
        (v / 0x1_0000 % 0x100) as u8,
        (v / 0x100 % 0x100) as u8,
        (v % 0x100) as u8,
    ]);
}

/// The bytes of a number are those that stand for it.
pub proof fn law_bytes_of_number(bytes: Seq<u8>, v: nat)
    requires
        be_nat(bytes) == v,
    ensures
        be_bytes(v, bytes.len()) == bytes,
{
    lemma_be_bytes_of_nat(bytes);
}

/// The tweak of the output number `k` is the number of the digest of the tag's digest, twice, of the
/// shared point, and of the four bytes of `k` itself, most significant first. The tag is
/// `BIP0352/SharedSecret`, given by its characters in ASCII.
pub proof fn law_output_tweak(shared: Seq<u8>, k: nat)
    requires
        k < 0x1_0000_0000,
    ensures
        ({
            let tag = sha256(
                seq![
                    0x42u8, 0x49, 0x50, 0x30, 0x33, 0x35, 0x32, 0x2f, 0x53, 0x68, 0x61, 0x72, 0x65,
                    0x64, 0x53, 0x65, 0x63, 0x72, 0x65, 0x74,
                ],
            );
            let number = seq![
                (k / 0x100_0000) as u8,
                (k / 0x1_0000 % 0x100) as u8,
                (k / 0x100 % 0x100) as u8,
                (k % 0x100) as u8,
            ];
            output_tweak(shared, k) == be_nat(sha256(tag + tag + shared + number))
        }),
{
    law_four_bytes(k);
    reveal_strlit("BIP0352/SharedSecret");
    let text = "BIP0352/SharedSecret"@;
    is_ascii_chars_encode_utf8(text);
    let ascii: Seq<u8> = seq![
        0x42u8, 0x49, 0x50, 0x30, 0x33, 0x35, 0x32, 0x2f, 0x53, 0x68, 0x61, 0x72, 0x65, 0x64, 0x53,
        0x65, 0x63, 0x72, 0x65, 0x74,
    ];
    assert(encode_utf8(text) =~= ascii);
    let tag = sha256(ascii);
    let number = be_bytes(k, 4);
    assert(tag + tag + (shared + number) =~= tag + tag + shared + number);
}

/// The number of the label `m` is the number of the digest of the tag's digest, twice, of the 32
/// bytes of the scan secret, and of the four bytes of `m` itself, most significant first. The tag is
/// `BIP0352/Label`, given by its characters in ASCII.
pub proof fn law_label_tweak(scan: Seq<u8>, m: nat)
    requires
        scan.len() == 32,
        m < 0x1_0000_0000,
    ensures
        ({
            let tag = sha256(
                seq![
                    0x42u8, 0x49, 0x50, 0x30, 0x33, 0x35, 0x32, 0x2f, 0x4c, 0x61, 0x62, 0x65, 0x6c,
                ],
            );
            let number = seq![
                (m / 0x100_0000) as u8,
                (m / 0x1_0000 % 0x100) as u8,
                (m / 0x100 % 0x100) as u8,
                (m % 0x100) as u8,
            ];
            label_tweak(be_nat(scan), m) == be_nat(sha256(tag + tag + scan + number))
        }),
{
    law_four_bytes(m);
    lemma_be_bytes_of_nat(scan);
    reveal_strlit("BIP0352/Label");
    let text = "BIP0352/Label"@;
    is_ascii_chars_encode_utf8(text);
    let ascii: Seq<u8> = seq![
        0x42u8, 0x49, 0x50, 0x30, 0x33, 0x35, 0x32, 0x2f, 0x4c, 0x61, 0x62, 0x65, 0x6c,
    ];
    assert(encode_utf8(text) =~= ascii);
    let tag = sha256(ascii);
    let number = be_bytes(m, 4);
    assert(tag + tag + (scan + number) =~= tag + tag + scan + number);
}

/// Two labels are told apart: the messages whose digests give their numbers differ. The same holds
/// of the numbers of outputs.
pub proof fn law_messages_differ(prefix: Seq<u8>, a: nat, b: nat)
    requires
        a < 0x1_0000_0000,
        b < 0x1_0000_0000,
        a != b,
    ensures
        prefix + seq![
            (a / 0x100_0000) as u8,
            (a / 0x1_0000 % 0x100) as u8,
            (a / 0x100 % 0x100) as u8,
            (a % 0x100) as u8,
        ] != prefix + seq![
            (b / 0x100_0000) as u8,
            (b / 0x1_0000 % 0x100) as u8,
            (b / 0x100 % 0x100) as u8,
            (b % 0x100) as u8,
        ],
{
    let n = prefix.len() as int;
    let x = prefix + seq![
        (a / 0x100_0000) as u8,
        (a / 0x1_0000 % 0x100) as u8,
        (a / 0x100 % 0x100) as u8,
        (a % 0x100) as u8,
    ];
    let y = prefix + seq![
        (b / 0x100_0000) as u8,
        (b / 0x1_0000 % 0x100) as u8,
        (b / 0x100 % 0x100) as u8,
        (b % 0x100) as u8,
    ];
    if x == y {
        assert(x[n] == y[n] && x[n + 1] == y[n + 1] && x[n + 2] == y[n + 2] && x[n + 3] == y[n + 3]);
        assert(a / 0x100_0000 == b / 0x100_0000);
        assert(a / 0x1_0000 % 0x100 == b / 0x1_0000 % 0x100);
        assert(a / 0x100 % 0x100 == b / 0x100 % 0x100);
        assert(a % 0x100 == b % 0x100);
    }
}

/// The order of the curve, as the distance from the power of two above it, and what is below it.
pub proof fn law_curve_order(k: nat)
    ensures
        curve_order() + 0x1_4551_2319_50B7_5FC4_402D_A173_2FC9_BEBFnat
            == 0x1_0000_0000_0000_0000_0000_0000_0000_0000_0000_0000_0000_0000_0000_0000_0000_0000nat,
        is_secret(k) <==> 1 <= k && k + 1 <= curve_order(),
{
}

/// Sums and products are taken modulo the order of the curve: they are below it, and differ from the
/// plain sum and product by a multiple of it.
pub proof fn law_modular(a: nat, b: nat)
    ensures
        add_mod(a, b) < curve_order(),
        (a + b - add_mod(a, b)) % (curve_order() as int) == 0,
        mul_mod(a, b) < curve_order(),
        (a * b - mul_mod(a, b)) % (curve_order() as int) == 0,
{
    let n = curve_order() as int;
    lemma_fundamental_div_mod((a + b) as int, n);
    lemma_fundamental_div_mod((a * b) as int, n);
    lemma_mod_multiples_basic((a + b) as int / n, n);
    lemma_mod_multiples_basic((a * b) as int / n, n);
    let (x, y) = ((a + b) as int / n, (a * b) as int / n);
    assert(n * x == x * n && n * y == y * n) by (nonlinear_arith);
}

/// A point has 33 bytes, begins with 2 or 3, and is the generator times a number below the order of
/// the curve, and times no other; that number is its logarithm.
pub proof fn law_points(point: Seq<u8>, k: nat)
    requires
        is_point(point),
    ensures
        point.len() == 33,
        point[0] == 2 || point[0] == 3,
        0 < point_log(point) < curve_order(),
        compressed_point(point_log(point)) == point,
        0 < k < curve_order() && compressed_point(k) == point ==> k == point_log(point),
{
    lemma_point_log(point);
    if 0 < k < curve_order() && compressed_point(k) == point {
        assert(is_log(point, k));
    }
}

/// What is a multiple of the generator in one way, and has the form of a point, is a point.
pub proof fn law_is_point(point: Seq<u8>, k: nat)
    requires
        point.len() == 33,
        point[0] == 2 || point[0] == 3,
        0 < k < curve_order(),
        compressed_point(k) == point,
        forall|j: nat| 0 < j < curve_order() && #[trigger] compressed_point(j) == point ==> j == k,
    ensures
        is_point(point),
{
    assert(is_log(point, k));
    assert forall|j: nat| #[trigger] is_log(point, j) implies j == k by {
        assert(compressed_point(j) == point);
    }
}

} // verus!
