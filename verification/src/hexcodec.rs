//! Hexadecimal text, by way of the `hex` crate.
use vstd::prelude::*;

verus! {

/// The lower-case hexadecimal digit `v`.
pub open spec fn hex_digit(v: int) -> char {
    if v < 10 {
        crate::text::digit_char(v)
    } else if v == 10 {
        'a'
    } else if v == 11 {
        'b'
    } else if v == 12 {
        'c'
    } else if v == 13 {
        'd'
    } else if v == 14 {
        'e'
    } else {
        'f'
    }
}

/// Two lower-case digits for each byte, the high half first.
pub open spec fn hex_text(bytes: Seq<u8>) -> Seq<char> {
    Seq::new(
        2 * bytes.len(),
        |i: int|
            hex_digit(
                if i % 2 == 0 {
                    bytes[i / 2] as int / 16
                } else {
                    bytes[i / 2] as int % 16
                },
            ),
    )
}

/// What a hexadecimal digit of either case stands for.
pub open spec fn hex_value(c: char) -> Option<int> {
    if '0' <= c <= '9' {
        Some(c as int - '0' as int)
    } else if 'a' <= c <= 'f' {
        Some(c as int - 'a' as int + 10)
    } else if 'A' <= c <= 'F' {
        Some(c as int - 'A' as int + 10)
    } else {
        None
    }
}

/// An even number of hexadecimal digits and nothing else.
pub open spec fn is_hex(s: Seq<char>) -> bool {
    s.len() % 2 == 0 && forall|i: int| 0 <= i < s.len() ==> hex_value(#[trigger] s[i]) is Some
}

/// The bytes that pairs of hexadecimal digits stand for.
pub open spec fn hex_bytes(s: Seq<char>) -> Seq<u8> {
    Seq::new(
        s.len() / 2,
        |i: int| (16 * hex_value(s[2 * i])->0 + hex_value(s[2 * i + 1])->0) as u8,
    )
}

/// Calls `hex::encode`, which writes two lower-case digits for each byte.
#[verifier::external_body]
pub(crate) fn hex_encode(bytes: &[u8]) -> (text: String)
    ensures
        text@ == hex_text(bytes@),
{
    hex::encode(bytes)
}

/// Calls `hex::decode`, which takes digits of either case in pairs and refuses an odd number of
/// them and any other character. Nothing is claimed of the words in which it refuses.
#[verifier::external_body]
pub(crate) fn hex_decode(text: &str) -> (bytes: Result<Vec<u8>, String>)
    ensures
        match bytes {
            Ok(b) => is_hex(text@) && b@ == hex_bytes(text@),
            Err(_) => !is_hex(text@),
        },
{
    hex::decode(text).map_err(|e| e.to_string())
}

/// Reading hexadecimal text gives back the bytes that were written.
pub proof fn law_hex_reads_back(bytes: Seq<u8>)
    ensures
        is_hex(hex_text(bytes)),
        hex_bytes(hex_text(bytes)) == bytes,
{
    let s = hex_text(bytes);
    assert forall|i: int| 0 <= i < s.len() implies hex_value(#[trigger] s[i]) == Some(
        if i % 2 == 0 {
            bytes[i / 2] as int / 16
        } else {
            bytes[i / 2] as int % 16
        },
    ) by {}
    assert(hex_bytes(s) =~= bytes) by {
        assert forall|i: int| 0 <= i < bytes.len() implies #[trigger] hex_bytes(s)[i]
            == bytes[i] by {
            assert(hex_value(s[2 * i]) == Some(bytes[i] as int / 16));
            assert(hex_value(s[2 * i + 1]) == Some(bytes[i] as int % 16));
        }
    }
}

/// Hexadecimal digits of either case stand for their values, and no other character for any.
pub proof fn law_hex_digits(c: char, v: int)
    ensures
        '0' <= c <= '9' ==> hex_value(c) == Some(c as int - '0' as int),
        'a' <= c <= 'f' ==> hex_value(c) == Some(10 + (c as int - 'a' as int)),
        'A' <= c <= 'F' ==> hex_value(c) == Some(10 + (c as int - 'A' as int)),
        hex_value(c) is Some ==> '0' <= c <= '9' || 'a' <= c <= 'f' || 'A' <= c <= 'F',
        0 <= v < 16 ==> hex_value(hex_digit(v)) == Some(v) && !('A' <= hex_digit(v) <= 'F'),
{
}

/// Each pair of digits stands for one byte, the high half first, and a text is hexadecimal
/// exactly where it is made up of such pairs.
pub proof fn law_hex_pairs(s: Seq<char>, bytes: Seq<u8>, i: int)
    ensures
        is_hex(s) <==> s.len() % 2 == 0 && !exists|k: int|
            0 <= k < s.len() && hex_value(#[trigger] s[k]) is None,
        is_hex(s) ==> hex_bytes(s).len() * 2 == s.len(),
        is_hex(s) && 0 <= i < hex_bytes(s).len() ==> hex_bytes(s)[i] == 16 * hex_value(s[2 * i])->0
            + hex_value(s[2 * i + 1])->0,
        hex_text(bytes).len() == 2 * bytes.len(),
        0 <= i < bytes.len() ==> hex_value(hex_text(bytes)[2 * i]) == Some(bytes[i] as int / 16)
            && hex_value(hex_text(bytes)[2 * i + 1]) == Some(bytes[i] as int % 16),
{
    if is_hex(s) && 0 <= i < s.len() / 2 {
        assert(hex_value(s[2 * i]) is Some && hex_value(s[2 * i + 1]) is Some);
    }
    if 0 <= i < bytes.len() {
        law_hex_digits('0', bytes[i] as int / 16);
        law_hex_digits('0', bytes[i] as int % 16);
        assert((2 * i) / 2 == i && (2 * i + 1) / 2 == i);
    }
}

} // verus!
