//! Bytes as lowercase hexadecimal text, and back.
//!
//! The conversions themselves are those of the `hex` crate. This module says
//! what they compute, and proves that reading inverts writing.

use hex::FromHexError;
use vstd::prelude::*;

verus! {

/// The sixteen digits, lowercase.
pub open spec fn hex_digits() -> Seq<char> {
    seq!['0', '1', '2', '3', '4', '5', '6', '7', '8', '9', 'a', 'b', 'c', 'd', 'e', 'f']
}

/// The number that a hexadecimal digit of either case stands for.
pub open spec fn hex_value(c: char) -> Option<int> {
    if '0' <= c <= '9' {
        Some(c as int - '0' as int)
    } else if 'a' <= c <= 'f' {
        Some(c as int - 'a' as int + 10)
    } else if 'A' <= c <= 'F' {
        Some(c as int - 'A' as int + 10)
    } else {
        None
    }
}

/// The text of a byte sequence: two lowercase digits for every byte, the
/// high-order four bits first.
pub open spec fn hex_text(bytes: Seq<u8>) -> Seq<char> {
    Seq::new(
        2 * bytes.len(),
        |i: int|
            if i % 2 == 0 {
                hex_digits()[bytes[i / 2] as int / 16]
            } else {
                hex_digits()[bytes[i / 2] as int % 16]
            },
    )
}

/// Whether a text is hexadecimal: digits of either case, an even number.
pub open spec fn is_hex(text: Seq<char>) -> bool {
    &&& text.len() % 2 == 0
    &&& forall|i: int| 0 <= i < text.len() ==> hex_value(#[trigger] text[i]) is Some
}

/// The bytes that a hexadecimal text stands for.
pub open spec fn hex_bytes(text: Seq<char>) -> Seq<u8>
    recommends
        is_hex(text),
{
    Seq::new(
        text.len() / 2,
        |i: int| (16 * hex_value(text[2 * i])->0 + hex_value(text[2 * i + 1])->0) as u8,
    )
}

/// The error of `hex::decode`, carried through as it is.
#[verifier::external_type_specification]
#[verifier::external_body]
pub struct ExFromHexError(FromHexError);

/// `hex::encode`: the lowercase hexadecimal text of the bytes.
#[verifier::external_body]
pub(crate) fn encode(bytes: &[u8]) -> (text: String)
    ensures
        text@ == hex_text(bytes@),
{
    hex::encode(bytes)
}

/// `hex::decode`: the bytes of a text of an even number of hexadecimal
/// digits, and an error for every other text. The outside function reads the
/// UTF-8 bytes of the text, of which a digit has one and no other character
/// has one that is a digit's.
#[verifier::external_body]
pub(crate) fn decode(text: &str) -> (r: Result<Vec<u8>, FromHexError>)
    ensures
        r is Ok <==> is_hex(text@),
        r matches Ok(bytes) ==> bytes@ == hex_bytes(text@),
{
    hex::decode(text)
}

/// Reading inverts writing: the text of a byte sequence is hexadecimal and
/// stands for that sequence.
pub proof fn lemma_hex_round_trip(bytes: Seq<u8>)
    ensures
        is_hex(hex_text(bytes)),
        hex_bytes(hex_text(bytes)) == bytes,
{
    let text = hex_text(bytes);
    assert forall|n: int| 0 <= n < 16 implies hex_value(#[trigger] hex_digits()[n]) == Some(
        n,
    ) by {
        lemma_digit_values();
    }
    assert forall|i: int| 0 <= i < text.len() implies hex_value(#[trigger] text[i]) is Some by {
        let byte = bytes[i / 2] as int;
        assert(0 <= byte / 16 < 16 && 0 <= byte % 16 < 16);
    }
    assert forall|i: int| 0 <= i < bytes.len() implies hex_bytes(text)[i] == bytes[i] by {
        let byte = bytes[i] as int;
        assert(0 <= byte / 16 < 16 && 0 <= byte % 16 < 16);
        assert((2 * i) / 2 == i && (2 * i) % 2 == 0);
        assert((2 * i + 1) / 2 == i && (2 * i + 1) % 2 == 1);
        assert(text[2 * i] == hex_digits()[byte / 16]);
        assert(text[2 * i + 1] == hex_digits()[byte % 16]);
    }
    assert(hex_bytes(text) =~= bytes);
}

/// Each of the sixteen digits stands for its position.
proof fn lemma_digit_values()
    ensures
        forall|n: int| 0 <= n < 16 ==> hex_value(#[trigger] hex_digits()[n]) == Some(n),
{
    let d = hex_digits();
    assert(hex_value(d[0]) == Some(0int));
    assert(hex_value(d[1]) == Some(1int));
    assert(hex_value(d[2]) == Some(2int));
    assert(hex_value(d[3]) == Some(3int));
    assert(hex_value(d[4]) == Some(4int));
    assert(hex_value(d[5]) == Some(5int));
    assert(hex_value(d[6]) == Some(6int));
    assert(hex_value(d[7]) == Some(7int));
    assert(hex_value(d[8]) == Some(8int));
    assert(hex_value(d[9]) == Some(9int));
    assert(hex_value(d[10]) == Some(10int));
    assert(hex_value(d[11]) == Some(11int));
    assert(hex_value(d[12]) == Some(12int));
    assert(hex_value(d[13]) == Some(13int));
    assert(hex_value(d[14]) == Some(14int));
    assert(hex_value(d[15]) == Some(15int));
}

} // verus!
