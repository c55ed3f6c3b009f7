//! Hexadecimal text.

use vstd::prelude::*;

verus! {

/// The lowercase hexadecimal digit of a number below sixteen.
pub open spec fn hex_digit(v: int) -> char {
    if v < 10 {
        (48 + v) as char
    } else {
        (87 + v) as char
    }
}

/// Whether a character is a hexadecimal digit, of either case.
pub open spec fn is_hex_digit(c: char) -> bool {
    ('0' <= c && c <= '9') || ('a' <= c && c <= 'f') || ('A' <= c && c <= 'F')
}

/// What a hexadecimal digit stands for.
pub open spec fn hex_value(c: char) -> int {
    if '0' <= c && c <= '9' {
        c as int - 48
    } else if 'a' <= c && c <= 'f' {
        c as int - 87
    } else {
        c as int - 55
    }
}

/// Two lowercase digits for each byte, the high half first.
pub open spec fn hex_text(bytes: Seq<u8>) -> Seq<char> {
    Seq::new(
        2 * bytes.len(),
        |i: int|
            if i % 2 == 0 {
                hex_digit(bytes[i / 2] as int / 16)
            } else {
                hex_digit(bytes[i / 2] as int % 16)
            },
    )
}

/// Whether a text is an even number of hexadecimal digits.
pub open spec fn is_hex_text(text: Seq<char>) -> bool {
    text.len() % 2 == 0 && forall|i: int| 0 <= i < text.len() ==> is_hex_digit(#[trigger] text[i])
}

/// The bytes that a hexadecimal text stands for.
pub open spec fn hex_bytes(text: Seq<char>) -> Seq<u8> {
    Seq::new(
        (text.len() / 2) as nat,
        |i: int| (16 * hex_value(text[2 * i]) + hex_value(text[2 * i + 1])) as u8,
    )
}

/// Writing bytes as hexadecimal and reading them back gives the bytes.
pub proof fn hex_round_trip(bytes: Seq<u8>)
    ensures
        is_hex_text(hex_text(bytes)),
        hex_bytes(hex_text(bytes)) == bytes,
{
    let text = hex_text(bytes);
    assert forall|i: int| 0 <= i < text.len() implies is_hex_digit(#[trigger] text[i]) by {
        let b = bytes[i / 2] as int;
        assert(0 <= b / 16 < 16 && 0 <= b % 16 < 16);
    }
    assert forall|i: int| 0 <= i < bytes.len() implies hex_bytes(text)[i] == bytes[i] by {
        let b = bytes[i] as int;
        assert(0 <= b / 16 < 16 && 0 <= b % 16 < 16);
        assert((2 * i) / 2 == i && (2 * i) % 2 == 0);
        assert((2 * i + 1) / 2 == i && (2 * i + 1) % 2 == 1);
        assert(hex_value(text[2 * i]) == b / 16);
        assert(hex_value(text[2 * i + 1]) == b % 16);
    }
    assert(hex_bytes(text) =~= bytes);
}

/// Different byte strings have different hexadecimal texts.
pub proof fn hex_text_is_injective(a: Seq<u8>, b: Seq<u8>)
    requires
        hex_text(a) == hex_text(b),
    ensures
        a == b,
{
    hex_round_trip(a);
    hex_round_trip(b);
}

/// `hex::encode`: two lowercase digits for each byte, the high half first.
#[verifier::external_body]
pub(crate) fn encode_hex(bytes: &[u8]) -> (text: String)
    ensures
        text@ == hex_text(bytes@),
{
    hex::encode(bytes)
}

/// `hex::decode`: the bytes of an even number of hexadecimal digits of either
/// case, and an error for any other text.
#[verifier::external_body]
pub(crate) fn decode_hex(text: &str) -> (bytes: Option<Vec<u8>>)
    ensures
        match bytes {
            Some(b) => is_hex_text(text@) && b@ == hex_bytes(text@),
            None => !is_hex_text(text@),
        },
{
    hex::decode(text).ok()
}

/// Reads exactly thirty-two bytes of hexadecimal.
pub(crate) fn decode_hex_32(text: &str) -> (bytes: Option<[u8; 32]>)
    ensures
        match bytes {
            Some(b) => is_hex_text(text@) && text@.len() == 64 && b@ == hex_bytes(text@),
            None => !(is_hex_text(text@) && text@.len() == 64),
        },
{
    match decode_hex(text) {
        Some(v) => {
            if v.len() == 32 {
                Some(array_32(v.as_slice()))
            } else {
                None
            }
        },
        None => None,
    }
}

/// Reads exactly sixty-four bytes of hexadecimal.
pub(crate) fn decode_hex_64(text: &str) -> (bytes: Option<[u8; 64]>)
    ensures
        match bytes {
            Some(b) => is_hex_text(text@) && text@.len() == 128 && b@ == hex_bytes(text@),
            None => !(is_hex_text(text@) && text@.len() == 128),
        },
{
    match decode_hex(text) {
        Some(v) => {
            if v.len() == 64 {
                Some(array_64(v.as_slice()))
            } else {
                None
            }
        },
        None => None,
    }
}

/// Copies thirty-two bytes into an array.
pub(crate) fn array_32(s: &[u8]) -> (a: [u8; 32])
    requires
        s@.len() == 32,
    ensures
        a@ == s@,
{
    let mut a: [u8; 32] = [0u8; 32];
    let mut i: usize = 0;
    while i < 32
        invariant
            i <= 32,
            s@.len() == 32,
            forall|k: int| 0 <= k < i ==> a@[k] == s@[k],
        decreases 32 - i,
    {
        a[i] = s[i];
        i += 1;
    }
    assert(a@ =~= s@);
    a
}

/// Copies sixty-four bytes into an array.
pub(crate) fn array_64(s: &[u8]) -> (a: [u8; 64])
    requires
        s@.len() == 64,
    ensures
        a@ == s@,
{
    let mut a: [u8; 64] = [0u8; 64];
    let mut i: usize = 0;
    while i < 64
        invariant
            i <= 64,
            s@.len() == 64,
            forall|k: int| 0 <= k < i ==> a@[k] == s@[k],
        decreases 64 - i,
    {
        a[i] = s[i];
        i += 1;
    }
    assert(a@ =~= s@);
    a
}

/// A text has two digits for each byte, the high half first, and no capital among
/// them.
pub proof fn digits_stand_in_order(bytes: Seq<u8>, i: int)
    requires
        0 <= i < bytes.len(),
    ensures
        hex_text(bytes).len() == 2 * bytes.len(),
        16 * hex_value(hex_text(bytes)[2 * i]) + hex_value(hex_text(bytes)[2 * i + 1]) == bytes[i],
        '0' <= hex_text(bytes)[2 * i] <= '9' || 'a' <= hex_text(bytes)[2 * i] <= 'f',
        '0' <= hex_text(bytes)[2 * i + 1] <= '9' || 'a' <= hex_text(bytes)[2 * i + 1] <= 'f',
{
    let b = bytes[i] as int;
    assert(0 <= b / 16 < 16 && 0 <= b % 16 < 16);
    assert((2 * i) / 2 == i && (2 * i) % 2 == 0);
    assert((2 * i + 1) / 2 == i && (2 * i + 1) % 2 == 1);
}

/// Digits stand for the numbers from zero to fifteen, in the order of the alphabet,
/// and capitals for what the small letters stand for.
pub proof fn digits_have_their_values()
    ensures
        hex_value('0') == 0,
        hex_value('9') == 9,
        hex_value('a') == 10 && hex_value('A') == 10,
        hex_value('f') == 15 && hex_value('F') == 15,
        forall|c: char|
            #![trigger hex_value(c)]
            is_hex_digit(c) ==> 0 <= hex_value(c) < 16,
        forall|c: char, d: char|
            #![trigger hex_value(c), hex_value(d)]
            is_hex_digit(c) && is_hex_digit(d) && c as int + 1 == d as int ==> hex_value(d)
                == hex_value(c) + 1,
        !is_hex_digit('g') && !is_hex_digit('G') && !is_hex_digit('/') && !is_hex_digit(':')
            && !is_hex_digit('`') && !is_hex_digit('@'),
{
}

} // verus!
