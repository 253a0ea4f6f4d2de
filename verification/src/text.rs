//! Text: decimal numbers, hexadecimal strings and the concatenations that messages are made of.

use vstd::prelude::*;
use vstd::utf8::encode_utf8;

verus! {

/// The digit for a value below sixteen, in lower case.
pub open spec fn digit_char(d: nat) -> char {
    if d < 10 { (48 + d) as char } else { (87 + d) as char }
}

/// A natural number in decimal notation.
pub open spec fn decimal(v: nat) -> Seq<char>
    decreases v,
{
    if v < 10 {
        seq![digit_char(v)]
    } else {
        decimal(v / 10).push(digit_char(v % 10))
    }
}

/// One decimal digit as text.
fn digit_text(d: u32) -> (r: &'static str)
    requires
        d < 10,
    ensures
        r@ == seq![digit_char(d as nat)],
{
    proof {
        reveal_strlit("0");
        reveal_strlit("1");
        reveal_strlit("2");
        reveal_strlit("3");
        reveal_strlit("4");
        reveal_strlit("5");
        reveal_strlit("6");
        reveal_strlit("7");
        reveal_strlit("8");
        reveal_strlit("9");
    }
    match d {
        0 => "0",
        1 => "1",
        2 => "2",
        3 => "3",
        4 => "4",
        5 => "5",
        6 => "6",
        7 => "7",
        8 => "8",
        _ => "9",
    }
}

/// A number in decimal notation.
pub(crate) fn decimal_text(v: u32) -> (r: String)
    ensures
        r@ == decimal(v as nat),
    decreases v,
{
    if v < 10 {
        digit_text(v).to_owned()
    } else {
        let mut out: String = decimal_text(v / 10);
        out.append(digit_text(v % 10));
        assert(out@ =~= decimal((v / 10) as nat).push(digit_char((v % 10) as nat)));
        out
    }
}

/// `a` followed by `b`.
pub(crate) fn join(a: &str, b: &str) -> (r: String)
    ensures
        r@ == a@ + b@,
{
    let mut out: String = a.to_owned();
    out.append(b);
    out
}

/// `a` followed by `b` and `c`.
pub(crate) fn join3(a: &str, b: &str, c: &str) -> (r: String)
    ensures
        r@ == a@ + b@ + c@,
{
    let mut out: String = join(a, b);
    out.append(c);
    out
}

/// Whether two texts are the same.
pub(crate) fn same_text(a: &str, b: &str) -> (r: bool)
    ensures
        r == (a@ == b@),
{
    a.to_owned() == b.to_owned()
}

/// Bytes as lower case hexadecimal text, two digits each.
pub open spec fn hex_text(bytes: Seq<u8>) -> Seq<char> {
    Seq::new(
        2 * bytes.len(),
        |i: int|
            digit_char(
                if i % 2 == 0 {
                    bytes[i / 2] as nat / 16
                } else {
                    bytes[i / 2] as nat % 16
                },
            ),
    )
}

/// The value of a hexadecimal digit of either case.
pub open spec fn hex_value(c: u8) -> Option<nat> {
    if 48 <= c <= 57 {
        Some((c - 48) as nat)
    } else if 97 <= c <= 102 {
        Some((c - 87) as nat)
    } else if 65 <= c <= 70 {
        Some((c - 55) as nat)
    } else {
        None
    }
}

/// How many of the leading bytes of `s` are hexadecimal digits.
pub open spec fn leading_hex(s: Seq<u8>) -> nat
    decreases s.len(),
{
    if s.len() == 0 || hex_value(s[0]) is None {
        0
    } else {
        1 + leading_hex(s.skip(1))
    }
}

/// Whether a byte is shown as it is: a printable character of ASCII, but for the quote and the
/// backslash.
pub open spec fn is_plain(c: u8) -> bool {
    32 <= c <= 126 && c != 39 && c != 92
}

/// The text of the error that reports a plain character at `position`.
pub open spec fn plain_character_message(c: u8, position: nat) -> Seq<char> {
    "Invalid character '"@ + seq![c as char] + "' at position "@ + decimal(position)
}

/// The text of the error that reports the byte `c`, which is no hexadecimal digit, at `position`. A
/// character that is not plain is escaped in it.
pub uninterp spec fn hex_character_message(c: u8, position: nat) -> Seq<char>;

/// The bytes that hexadecimal text stands for. The text is given by its UTF-8 encoding.
pub open spec fn hex_bytes(s: Seq<u8>) -> Option<Seq<u8>> {
    if s.len() % 2 != 0 || leading_hex(s) < s.len() {
        None
    } else {
        Some(
            Seq::new(
                s.len() / 2,
                |i: int| (16 * hex_value(s[2 * i]).unwrap() + hex_value(s[2 * i + 1]).unwrap()) as u8,
            ),
        )
    }
}

/// The text of the error for text that stands for no bytes.
pub open spec fn hex_error(s: Seq<u8>) -> Seq<char> {
    let position = leading_hex(s);
    let c = s[position as int];
    if s.len() % 2 != 0 {
        "Odd number of digits"@
    } else if is_plain(c) {
        plain_character_message(c, position)
    } else {
        hex_character_message(c, position)
    }
}

/// Calls `hex::encode`, which writes every byte as two lower case digits.
#[verifier::external_body]
pub(crate) fn hex_encode(bytes: &[u8]) -> (r: String)
    ensures
        r@ == hex_text(bytes@),
{
    hex::encode(bytes)
}

/// Calls `hex::decode`.
///
/// It reads pairs of digits of either case. Text of odd length is refused first, then the first
/// byte that is no digit; the error is handed out as the text that it displays, which quotes that
/// byte and tells its position.
#[verifier::external_body]
pub(crate) fn hex_decode(s: &str) -> (r: Result<Vec<u8>, String>)
    ensures
        r matches Ok(bytes) ==> hex_bytes(encode_utf8(s@)) == Some(bytes@),
        r matches Err(text) ==> hex_bytes(encode_utf8(s@)) is None && text@ == ({
            let utf8 = encode_utf8(s@);
            let position = leading_hex(utf8);
            let c = utf8[position as int];
            if utf8.len() % 2 != 0 {
                "Odd number of digits"@
            } else if is_plain(c) {
                plain_character_message(c, position)
            } else {
                hex_character_message(c, position)
            }
        }),
{
    hex::decode(s).map_err(|e| e.to_string())
}

} // verus!
