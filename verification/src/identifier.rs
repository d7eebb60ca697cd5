//! The identifier codec: a name as a field value, and back.
//!
//! A name is packed into one field value by reading its UTF-8 bytes as a
//! little-endian number. The unused high-order bytes of the field value are
//! zero, so the decoder cuts the text at the first zero byte and checks the
//! length that the identifier recorded.
//!
//! Names are not held to ASCII: a letter or a digit of any script may stand
//! in a name. Lengths and the capacity count the bytes of the UTF-8 encoding,
//! not the characters, and the round trip holds for names of several bytes
//! per character as it does for the others.

use crate::error::Error;
use crate::field::{lemma_pow2_landmarks, modulus, FieldValue, DATA_BITS, REPR_BYTES};
use crate::radix::{
    bytes_to_bits_le, bytes_value, le_bytes, lemma_bits_of_bytes_value, lemma_bytes_value_bound,
    lemma_le_bytes_len, lemma_le_bytes_of_value, lemma_pow2_monotonic, pow2, zero_bytes,
};
use vstd::prelude::*;
use vstd::std_specs::iter::IteratorSpec;
use vstd::string::StringSliceAdditionalSpecFns;
use vstd::utf8::{
    decode_utf8, encode_scalar, encode_utf8, encode_utf8_decode_utf8, encode_utf8_valid_utf8,
    is_ascii_chars,
    has_width_1_encoding, is_char_boundary_iff_not_is_continuation_byte,
    is_char_boundary_start_end_of_seq, is_continuation_byte, last_continuation_byte,
    leading_byte_width_1, leading_byte_width_2, leading_byte_width_3, leading_byte_width_4,
    second_last_continuation_byte, third_last_continuation_byte, valid_utf8, valid_utf8_concat,
};

verus! {

/// Whether Unicode counts a character as alphabetic or numeric, as
/// `char::is_alphanumeric` reports it.
pub uninterp spec fn unicode_alphanumeric(c: char) -> bool;

/// Whether Unicode counts a character as numeric, as `char::is_numeric`
/// reports it.
pub uninterp spec fn unicode_numeric(c: char) -> bool;

/// Whether a character is one of the 52 letters or ten digits of ASCII.
pub open spec fn ascii_alphanumeric(c: char) -> bool {
    ('a' <= c <= 'z') || ('A' <= c <= 'Z') || ('0' <= c <= '9')
}

/// Whether a character is one of the ten digits of ASCII.
pub open spec fn ascii_digit(c: char) -> bool {
    '0' <= c <= '9'
}

/// `char::is_alphanumeric` of std: the answer depends on the character alone.
/// The documentation defines it by the Alphabetic property and the numeric
/// general categories of the Unicode Character Database, which among the
/// characters of ASCII gives them to the letters and the digits and to no
/// other.
pub assume_specification[ char::is_alphanumeric ](c: char) -> (r: bool)
    ensures
        r == unicode_alphanumeric(c),
        c <= '\u{7f}' ==> r == ascii_alphanumeric(c),
;

/// `char::is_numeric` of std: the answer depends on the character alone. The
/// documentation defines it by the numeric general categories of the Unicode
/// Character Database, which among the characters of ASCII gives one to the
/// digits and to no other.
pub assume_specification[ char::is_numeric ](c: char) -> (r: bool)
    ensures
        r == unicode_numeric(c),
        c <= '\u{7f}' ==> r == ascii_digit(c),
;

/// `String::from_utf8` of std: the string whose UTF-8 encoding the bytes
/// are, or nothing where the bytes are not valid UTF-8.
#[verifier::external_body]
fn string_from_utf8(bytes: Vec<u8>) -> (r: Option<String>)
    ensures
        r is Some <==> valid_utf8(bytes@),
        r matches Some(text) ==> text@ == decode_utf8(bytes@),
{
    match String::from_utf8(bytes) {
        Ok(text) => Some(text),
        Err(_) => None,
    }
}

/// The largest number of bytes that a name may have.
pub open spec fn max_name_bytes() -> nat {
    (DATA_BITS / 8) as nat
}

/// A character with the two answers on it that the rules on names ask for:
/// whether it is alphabetic or numeric, and whether it is numeric.
pub type Classified = (char, bool, bool);

/// The rules on the shape of a name, over classified characters: not empty,
/// no numeric first character, every character alphanumeric or an
/// underscore, and not underscores alone.
pub open spec fn shape_of(classes: Seq<Classified>) -> bool {
    &&& classes.len() > 0
    &&& !classes[0].2
    &&& forall|i: int| 0 <= i < classes.len() ==> (#[trigger] classes[i]).1 || classes[i].0 == '_'
    &&& exists|i: int| 0 <= i < classes.len() && (#[trigger] classes[i]).0 != '_'
}

/// The characters of a name, classified as Unicode has them.
pub open spec fn classes_of(name: Seq<char>) -> Seq<Classified> {
    Seq::new(
        name.len(),
        |i: int| (name[i], unicode_alphanumeric(name[i]), unicode_numeric(name[i])),
    )
}

/// The characters of a name, classified as ASCII has them.
pub open spec fn ascii_classes_of(name: Seq<char>) -> Seq<Classified> {
    Seq::new(name.len(), |i: int| (name[i], ascii_alphanumeric(name[i]), ascii_digit(name[i])))
}

/// The rules on the shape of a name: not empty, no numeric first character,
/// alphanumeric characters and underscores only, and not underscores alone.
pub open spec fn valid_shape(name: Seq<char>) -> bool {
    shape_of(classes_of(name))
}

/// The rules on the shape of a name, read for ASCII: not empty, no digit
/// first, letters, digits and underscores only, and not underscores alone.
pub open spec fn ascii_shape(name: Seq<char>) -> bool {
    shape_of(ascii_classes_of(name))
}

/// Whether classified characters keep the rules on the shape of a name.
pub fn shape_is_valid(classes: &[Classified]) -> (ok: bool)
    ensures
        ok == shape_of(classes@),
{
    if classes.len() == 0 || classes[0].2 {
        return false;
    }
    let mut other_than_underscore: bool = false;
    let mut i: usize = 0;
    while i < classes.len()
        invariant
            i <= classes@.len(),
            forall|j: int| 0 <= j < i ==> (#[trigger] classes@[j]).1 || classes@[j].0 == '_',
            other_than_underscore <==> exists|j: int|
                0 <= j < i && (#[trigger] classes@[j]).0 != '_',
        decreases classes@.len() - i,
    {
        let class: Classified = classes[i];
        if !(class.1 || class.0 == '_') {
            return false;
        }
        if class.0 != '_' {
            other_than_underscore = true;
        }
        i = i + 1;
    }
    other_than_underscore
}

/// The position of the first zero byte, or the length where there is none.
pub open spec fn first_zero(bytes: Seq<u8>) -> nat
    decreases bytes.len(),
{
    if bytes.len() == 0 || bytes[0] == 0 {
        0
    } else {
        1 + first_zero(bytes.drop_first())
    }
}

/// What an identifier is: a number below the modulus and a byte count.
pub struct IdentifierView {
    pub value: nat,
    pub length: nat,
}

/// The identifier of a name: its UTF-8 bytes read as a little-endian number,
/// and how many bytes there are.
pub open spec fn encode_spec(name: Seq<char>) -> IdentifierView {
    IdentifierView { value: bytes_value(encode_utf8(name)), length: encode_utf8(name).len() }
}

/// The text of an identifier: the bytes of its value up to the first zero,
/// where all the bytes are valid UTF-8 and the cut falls at the recorded
/// length. Nothing otherwise.
pub open spec fn decode_spec(id: IdentifierView) -> Option<Seq<char>> {
    let bytes = le_bytes(id.value, REPR_BYTES as nat);
    let end = first_zero(bytes);
    if valid_utf8(bytes) && end == id.length {
        Some(decode_utf8(bytes.subrange(0, end as int)))
    } else {
        None
    }
}

/// A name as a field value, with the number of bytes of the name.
#[derive(Clone, Copy, Debug, PartialEq, Eq)]
pub struct Identifier {
    value: FieldValue,
    length: u8,
}

impl View for Identifier {
    type V = IdentifierView;

    closed spec fn view(&self) -> IdentifierView {
        IdentifierView { value: self.value@, length: self.length as nat }
    }
}

impl Identifier {
    /// An identifier from its two parts, as a byte stream delivers them.
    /// Nothing is checked: such an identifier need not decode.
    pub fn from_parts(value: FieldValue, length: u8) -> (id: Identifier)
        ensures
            id@ == (IdentifierView { value: value@, length: length as nat }),
    {
        Identifier { value, length }
    }

    /// The field value.
    pub fn value(&self) -> (value: FieldValue)
        ensures
            value@ == self@.value,
    {
        self.value
    }

    /// The number of bytes of the name.
    pub fn length(&self) -> (length: u8)
        ensures
            length as nat == self@.length,
    {
        self.length
    }

    /// The 32 bytes of the field value, least significant first.
    pub fn to_bytes_le(&self) -> (bytes: Vec<u8>)
        ensures
            bytes@ == le_bytes(self@.value, REPR_BYTES as nat),
    {
        self.value.to_bytes_le()
    }

    /// Encodes a name.
    ///
    /// A name that breaks the rules on its shape is refused as invalid; one
    /// that keeps them and has more bytes than a field value carries is
    /// refused for its size. Every other name is encoded, and its identifier
    /// decodes to the name. For a name of ASCII characters the rules are
    /// those on letters, digits and underscores.
    pub fn from_str(name: &str) -> (r: Result<Identifier, Error>)
        ensures
            match r {
                Ok(id) => valid_shape(name@) && encode_utf8(name@).len() <= max_name_bytes() && id@
                    == encode_spec(name@) && decode_spec(id@) == Some(name@),
                Err(e) => if valid_shape(name@) {
                    e == Error::Capacity && encode_utf8(name@).len() > max_name_bytes()
                } else {
                    e == Error::Validation
                },
            },
            is_ascii_chars(name@) ==> (valid_shape(name@) <==> ascii_shape(name@)),
    {
        let mut classes: Vec<Classified> = Vec::new();
        for c in it: name.chars()
            invariant
                it.seq() == name@,
                it.index() <= name@.len(),
                classes@.len() == it.index(),
                forall|j: int|
                    0 <= j < it.index() ==> {
                        &&& (#[trigger] classes@[j]).0 == name@[j]
                        &&& classes@[j].1 == unicode_alphanumeric(name@[j])
                        &&& classes@[j].2 == unicode_numeric(name@[j])
                    },
                forall|j: int|
                    0 <= j < it.index() && (#[trigger] name@[j]) <= '\u{7f}' ==> {
                        &&& unicode_alphanumeric(name@[j]) == ascii_alphanumeric(name@[j])
                        &&& unicode_numeric(name@[j]) == ascii_digit(name@[j])
                    },
        {
            let alphanumeric: bool = c.is_alphanumeric();
            let numeric: bool = c.is_numeric();
            classes.push((c, alphanumeric, numeric));
        }
        proof {
            assert(classes@ =~= classes_of(name@));
            if is_ascii_chars(name@) {
                assert forall|j: int| 0 <= j < name@.len() implies classes_of(name@)[j]
                    == ascii_classes_of(name@)[j] by {
                    assert(name@[j] <= '\u{7f}');
                }
                assert(classes_of(name@) =~= ascii_classes_of(name@));
            }
        }
        if !shape_is_valid(classes.as_slice()) {
            return Err(Error::Validation);
        }
        let max_bytes: usize = FieldValue::size_in_data_bits() / 8;
        let bytes: &[u8] = name.as_bytes();
        if bytes.len() > max_bytes {
            return Err(Error::Capacity);
        }
        let bits: Vec<bool> = bytes_to_bits_le(bytes);
        proof {
            lemma_bits_of_bytes_value(bytes@);
            lemma_bytes_value_bound(bytes@);
            lemma_pow2_monotonic(8 * bytes@.len(), 248);
            lemma_pow2_landmarks();
            assert forall|i: int| 0 <= i < name@.len() implies name@[i] != '\0' by {
                let class = classes_of(name@)[i];
                assert(class.1 || class.0 == '_');
                if name@[i] == '\0' {
                    assert(name@[i] <= '\u{7f}');
                    assert(!ascii_alphanumeric(name@[i]));
                }
            }
            lemma_decode_inverts_encode(name@);
        }
        match FieldValue::from_bits_le(bits.as_slice()) {
            Some(value) => Ok(Identifier { value, length: bytes.len() as u8 }),
            // Never taken: a number of so few bytes is below the modulus.
            None => Err(Error::Capacity),
        }
    }

    /// Decodes the identifier to its text.
    ///
    /// Fails where the bytes of the field value are not valid UTF-8, or where
    /// the text up to the first zero byte has not the recorded length.
    pub fn to_string(&self) -> (r: Result<String, Error>)
        ensures
            match r {
                Ok(text) => decode_spec(self@) == Some(text@),
                Err(e) => e == Error::Encoding && decode_spec(self@) is None,
            },
    {
        let bytes: Vec<u8> = self.value.to_bytes_le();
        let ghost all = bytes@;
        proof {
            lemma_le_bytes_len(self@.value, REPR_BYTES as nat);
        }
        let mut end: usize = 0;
        while end < bytes.len() && bytes[end] != 0
            invariant
                end <= bytes@.len(),
                all == bytes@,
                forall|j: int| 0 <= j < end ==> bytes@[j] != 0,
            decreases bytes@.len() - end,
        {
            end = end + 1;
        }
        proof {
            lemma_first_zero(all, end as int);
        }
        match string_from_utf8(bytes) {
            None => Err(Error::Encoding),
            Some(text) => {
                if end != self.length as usize {
                    return Err(Error::Encoding);
                }
                proof {
                    vstd::utf8::decode_utf8_encode_utf8(all);
                    if end < all.len() {
                        assert(!is_continuation_byte(0u8)) by (bit_vector);
                        is_char_boundary_iff_not_is_continuation_byte(all, end as int);
                    } else {
                        is_char_boundary_start_end_of_seq(all);
                    }
                }
                let (head, _tail) = text.as_str().split_at(end);
                proof {
                    encode_utf8_decode_utf8(head@);
                }
                Ok(head.to_owned())
            },
        }
    }
}

/// Where the bytes before a position are not zero and the byte at it, if
/// there is one, is zero, the position is that of the first zero.
proof fn lemma_first_zero(bytes: Seq<u8>, end: int)
    requires
        0 <= end <= bytes.len(),
        forall|j: int| 0 <= j < end ==> bytes[j] != 0,
        end < bytes.len() ==> bytes[end] == 0,
    ensures
        first_zero(bytes) == end,
    decreases bytes.len(),
{
    if end > 0 {
        lemma_first_zero(bytes.drop_first(), end - 1);
    }
}

/// No byte of the UTF-8 encoding of a nonzero scalar is zero.
proof fn lemma_scalar_bytes_nonzero(scalar: u32)
    by (bit_vector)
    requires
        scalar != 0,
    ensures
        has_width_1_encoding(scalar) ==> leading_byte_width_1(scalar) != 0,
        leading_byte_width_2(scalar) != 0,
        leading_byte_width_3(scalar) != 0,
        leading_byte_width_4(scalar) != 0,
        last_continuation_byte(scalar) != 0,
        second_last_continuation_byte(scalar) != 0,
        third_last_continuation_byte(scalar) != 0,
{
}

/// The zero scalar is encoded as one zero byte.
proof fn lemma_zero_scalar_byte()
    by (bit_vector)
    ensures
        has_width_1_encoding(0u32),
        leading_byte_width_1(0u32) == 0,
{
}

/// The UTF-8 encoding of a text without the zero character has no zero byte.
pub proof fn lemma_encoding_has_no_zero(text: Seq<char>)
    requires
        forall|i: int| 0 <= i < text.len() ==> text[i] != '\0',
    ensures
        forall|j: int| 0 <= j < encode_utf8(text).len() ==> encode_utf8(text)[j] != 0,
    decreases text.len(),
{
    if text.len() > 0 {
        let head = encode_scalar(text[0] as u32);
        let tail = encode_utf8(text.drop_first());
        assert(text[0] != '\0');
        vstd::utf8::char_is_scalar(text[0]);
        vstd::utf8::char_u32_cast(text[0], text[0] as u32);
        vstd::utf8::char_u32_cast('\0', '\0' as u32);
        assert('\0' as u32 == 0);
        lemma_scalar_bytes_nonzero(text[0] as u32);
        lemma_encoding_has_no_zero(text.drop_first());
        assert forall|j: int| 0 <= j < encode_utf8(text).len() implies encode_utf8(text)[j]
            != 0 by {
            if j < head.len() {
                assert(encode_utf8(text)[j] == head[j]);
            } else {
                assert(encode_utf8(text)[j] == tail[j - head.len()]);
            }
        }
    }
}

/// Zero bytes are the UTF-8 encoding of as many zero characters.
proof fn lemma_zero_bytes_are_text(len: nat)
    ensures
        encode_utf8(Seq::new(len, |i: int| '\0')) == zero_bytes(len),
    decreases len,
{
    let text = Seq::new(len, |i: int| '\0');
    if len > 0 {
        assert(text.drop_first() =~= Seq::new((len - 1) as nat, |i: int| '\0'));
        lemma_zero_bytes_are_text((len - 1) as nat);
        lemma_zero_scalar_byte();
        assert(encode_scalar('\0' as u32) =~= seq![0u8]);
        assert(encode_utf8(text) =~= zero_bytes(len));
    } else {
        assert(encode_utf8(text) =~= zero_bytes(len));
    }
}

/// The round trip of the codec: a text without the zero character that fits
/// in a field value decodes from its identifier to itself. Every name that
/// the encoder accepts is such a text.
pub proof fn lemma_decode_inverts_encode(name: Seq<char>)
    requires
        forall|i: int| 0 <= i < name.len() ==> name[i] != '\0',
        encode_utf8(name).len() <= max_name_bytes(),
    ensures
        decode_spec(encode_spec(name)) == Some(name),
{
    let encoded = encode_utf8(name);
    let padding = zero_bytes((REPR_BYTES - encoded.len()) as nat);
    let bytes = le_bytes(bytes_value(encoded), REPR_BYTES as nat);
    lemma_le_bytes_of_value(encoded, REPR_BYTES as nat);
    assert(bytes == encoded + padding);
    lemma_encoding_has_no_zero(name);
    lemma_first_zero(bytes, encoded.len() as int);
    lemma_zero_bytes_are_text((REPR_BYTES - encoded.len()) as nat);
    encode_utf8_valid_utf8(name);
    encode_utf8_valid_utf8(Seq::new((REPR_BYTES - encoded.len()) as nat, |i: int| '\0'));
    valid_utf8_concat(encoded, padding);
    assert(bytes.subrange(0, encoded.len() as int) =~= encoded);
    encode_utf8_decode_utf8(name);
}

/// An identifier that the encoder made keeps what the data model asks: its
/// length is the byte length of the name, within the capacity, and its value
/// is below two to the power of eight times that length.
pub proof fn lemma_encoded_within_capacity(name: Seq<char>)
    requires
        encode_utf8(name).len() <= max_name_bytes(),
    ensures
        encode_spec(name).length <= max_name_bytes(),
        encode_spec(name).value < pow2(8 * encode_spec(name).length),
        encode_spec(name).value < modulus(),
{
    let encoded = encode_utf8(name);
    lemma_bytes_value_bound(encoded);
    lemma_pow2_monotonic(8 * encoded.len(), 248);
    lemma_pow2_landmarks();
}

} // verus!
