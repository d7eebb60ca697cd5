use rand::distributions::Alphanumeric;
use rand::rngs::StdRng;
use rand::{Rng, SeedableRng};
use snarkvm_curves::bls12_377::Fr;
use snarkvm_fields::PrimeField;
use snarkvm_utilities::{BigInteger256, FromBits, ToBytes};
use spend_authorization::error::Error;
use spend_authorization::field::FieldValue;
use spend_authorization::identifier::{shape_is_valid, Identifier};
use spend_authorization::radix::{bits_to_bytes_le, bytes_to_bits_le};

const ITERATIONS: usize = 100;

/// A random name that starts with a letter and fits in the field.
fn sample_identifier_as_string(rng: &mut StdRng) -> String {
    let tail: String = rng
        .sample_iter(&Alphanumeric)
        .take(FieldValue::size_in_data_bits() / (8 * 2))
        .map(char::from)
        .collect();
    let string = "a".to_string() + &tail;
    let max_bytes = FieldValue::size_in_data_bits() / 8;
    assert!(string.len() <= max_bytes);
    string
}

#[test]
fn test_identifier_from_str() {
    let candidate = Identifier::from_str("foo_bar").unwrap();
    assert_eq!("foo_bar", candidate.to_string().unwrap());

    let mut rng = StdRng::seed_from_u64(0x1d);
    for _ in 0..ITERATIONS {
        let expected_string = sample_identifier_as_string(&mut rng);
        let expected_field =
            FieldValue::from_bits_le(&bytes_to_bits_le(expected_string.as_bytes())).unwrap();

        let candidate = Identifier::from_str(&expected_string).unwrap();
        assert_eq!(expected_string, candidate.to_string().unwrap());
        assert_eq!(expected_field, candidate.value());
        assert_eq!(expected_string.len(), candidate.length() as usize);
    }
}

#[test]
fn test_identifier_from_str_fails() {
    // Must be alphanumeric or underscore.
    assert!(Identifier::from_str("foo_bar~baz").is_err());
    assert!(Identifier::from_str("foo_bar-baz").is_err());

    // Must not be solely underscores.
    assert!(Identifier::from_str("_").is_err());
    assert!(Identifier::from_str("__").is_err());
    assert!(Identifier::from_str("___").is_err());
    assert!(Identifier::from_str("____").is_err());

    // Must not start with a number.
    assert!(Identifier::from_str("1").is_err());
    assert!(Identifier::from_str("2").is_err());
    assert!(Identifier::from_str("3").is_err());
    assert!(Identifier::from_str("1foo").is_err());
    assert!(Identifier::from_str("12").is_err());
    assert!(Identifier::from_str("111").is_err());

    // Must fit within the data capacity of a base field element.
    let identifier = Identifier::from_str(
        "foo_bar_baz_qux_quux_quuz_corge_grault_garply_waldo_fred_plugh_xyzzy",
    );
    assert!(identifier.is_err());
}

#[test]
fn test_identifier_display() {
    let identifier = Identifier::from_str("foo_bar").unwrap();
    assert_eq!("foo_bar", format!("{}", identifier.to_string().unwrap()));
}

#[test]
fn shape_errors_are_validation_errors() {
    for name in ["", "1", "12", "_", "__", "foo-bar", "foo~bar", "foo bar", "a\0b"] {
        assert_eq!(Identifier::from_str(name), Err(Error::Validation), "{:?}", name);
    }
}

#[test]
fn long_names_are_capacity_errors() {
    let name = "foo_bar_baz_qux_quux_quuz_corge_grault_garply_waldo_fred_plugh_xyzzy";
    assert_eq!(name.len(), 68);
    assert_eq!(Identifier::from_str(name), Err(Error::Capacity));
    let at_capacity = "a".repeat(31);
    let over_capacity = "a".repeat(32);
    let id = Identifier::from_str(&at_capacity).unwrap();
    assert_eq!(id.length(), 31);
    assert_eq!(id.to_string().unwrap(), at_capacity);
    assert_eq!(Identifier::from_str(&over_capacity), Err(Error::Capacity));
}

#[test]
fn shape_is_judged_before_size() {
    let name = "foo-bar_baz_qux_quux_quuz_corge_grault_garply_waldo_fred_plugh_xyzzy";
    assert_eq!(Identifier::from_str(name), Err(Error::Validation));
}

#[test]
fn value_is_the_little_endian_number_of_the_bytes() {
    let id = Identifier::from_str("a").unwrap();
    let mut expected = vec![0u8; 32];
    expected[0] = b'a';
    assert_eq!(id.to_bytes_le(), expected);
    assert_eq!(id.length(), 1);

    let id = Identifier::from_str("ab").unwrap();
    // 'a' + 256 * 'b' = 97 + 256 * 98
    let field = Fr::from_repr(BigInteger256::from(97u64 + 256 * 98)).unwrap();
    assert_eq!(id.to_bytes_le(), field.to_bytes_le().unwrap());
    assert_eq!(id.length(), 2);
}

#[test]
fn names_of_several_bytes_per_character_round_trip() {
    let name = "caf\u{e9}_\u{85cf}\u{0663}";
    let id = Identifier::from_str(name).unwrap();
    assert_eq!(id.length() as usize, name.len());
    assert_eq!(name.len(), 11);
    assert_eq!(id.to_string().unwrap(), name);
    // A numeric first character of another script is refused too.
    assert_eq!(Identifier::from_str("\u{0663}abc"), Err(Error::Validation));
}

#[test]
fn mixed_case_and_underscores_round_trip() {
    for name in ["_a", "A_b_C", "fooBar_9", "x", "Z9_", "a_______________________________"[..31].as_ref()] {
        let id = Identifier::from_str(name).unwrap();
        assert_eq!(id.to_string().unwrap(), name);
    }
}

#[test]
fn a_wrong_length_does_not_decode() {
    let id = Identifier::from_str("foo_bar").unwrap();
    let short = Identifier::from_parts(id.value(), 6);
    let long = Identifier::from_parts(id.value(), 8);
    assert_eq!(short.to_string(), Err(Error::Encoding));
    assert_eq!(long.to_string(), Err(Error::Encoding));
    let exact = Identifier::from_parts(id.value(), 7);
    assert_eq!(exact.to_string().unwrap(), "foo_bar");
    assert_eq!(exact, id);
}

#[test]
fn a_premature_zero_byte_does_not_decode() {
    // The bytes "ab\0cd": the text ends at the zero, the length says five.
    let value = FieldValue::from_bytes_le(b"ab\0cd").unwrap();
    assert_eq!(Identifier::from_parts(value, 5).to_string(), Err(Error::Encoding));
    assert_eq!(Identifier::from_parts(value, 2).to_string().unwrap(), "ab");
}

#[test]
fn bytes_that_are_not_utf8_do_not_decode() {
    let value = FieldValue::from_bytes_le(&[0xff, 0xfe]).unwrap();
    assert_eq!(Identifier::from_parts(value, 2).to_string(), Err(Error::Encoding));
    // Invalid bytes after the first zero spoil the decoding as well.
    let value = FieldValue::from_bytes_le(&[b'a', 0, 0xff]).unwrap();
    assert_eq!(Identifier::from_parts(value, 1).to_string(), Err(Error::Encoding));
}

#[test]
fn the_zero_value_decodes_to_the_empty_text() {
    let value = FieldValue::from_bits_le(&[]).unwrap();
    assert_eq!(Identifier::from_parts(value, 0).to_string().unwrap(), "");
}

#[test]
fn field_values_stop_at_the_modulus() {
    // modulus - 1 and modulus, as little-endian limbs.
    let mut limbs = [
        725501752471715841u64,
        6461107452199829505u64,
        6968279316240510977u64,
        1345280370688173398u64,
    ];
    let modulus_bytes: Vec<u8> = limbs.iter().flat_map(|l| l.to_le_bytes()).collect();
    assert!(FieldValue::from_bytes_le(&modulus_bytes).is_none());
    limbs[0] -= 1;
    let below: Vec<u8> = limbs.iter().flat_map(|l| l.to_le_bytes()).collect();
    let value = FieldValue::from_bytes_le(&below).unwrap();
    assert_eq!(value.to_bytes_le(), below);
    let field = Fr::from_repr(BigInteger256(limbs)).unwrap();
    assert_eq!(value.to_bytes_le(), field.to_bytes_le().unwrap());
    assert!(FieldValue::from_bytes_le(&[0xff; 32]).is_none());
}

#[test]
fn bits_beyond_the_representation_must_be_zero() {
    let mut bits = vec![false; 300];
    bits[3] = true;
    let value = FieldValue::from_bits_le(&bits).unwrap();
    assert_eq!(value.to_bytes_le()[0], 8);
    bits[299] = true;
    assert!(FieldValue::from_bits_le(&bits).is_none());
    let mut bits = vec![false; 257];
    bits[256] = true;
    assert!(FieldValue::from_bits_le(&bits).is_none());
}

#[test]
fn field_bits_agree_with_the_field_library() {
    let bits = bytes_to_bits_le(b"foo_bar");
    let value = FieldValue::from_bits_le(&bits).unwrap();
    let outside = BigInteger256::from_bits_le(&bits);
    assert_eq!(value.to_bytes_le(), outside.to_bytes_le().unwrap());
    let all = value.to_bits_le();
    assert_eq!(all.len(), 256);
    assert_eq!(&all[..56], &bits[..]);
    assert!(all[56..].iter().all(|bit| !bit));
}

#[test]
fn capacity_is_that_of_the_scalar_field() {
    assert_eq!(FieldValue::size_in_data_bits(), 252);
    assert_eq!(FieldValue::size_in_data_bits(), Fr::size_in_bits() - 1);
}

#[test]
fn bits_and_bytes_convert_both_ways() {
    assert_eq!(
        bytes_to_bits_le(&[0b0000_0101, 0x80]),
        vec![
            true, false, true, false, false, false, false, false, false, false, false, false,
            false, false, false, true
        ]
    );
    assert_eq!(bits_to_bytes_le(&[true, false, true]), vec![5u8]);
    assert_eq!(
        bits_to_bytes_le(&[false, false, false, false, false, false, false, true, true]),
        vec![0x80u8, 1]
    );
    assert_eq!(bits_to_bytes_le(&[]), Vec::<u8>::new());
    let bytes: Vec<u8> = (0..=255u8).collect();
    assert_eq!(bits_to_bytes_le(&bytes_to_bits_le(&bytes)), bytes);
    assert_eq!(
        bits_to_bytes_le(&bytes_to_bits_le(&bytes)),
        snarkvm_utilities::from_bits_le_to_bytes_le(&bytes_to_bits_le(&bytes))
    );
    let outside: Vec<bool> = snarkvm_utilities::from_bytes_le_to_bits_le(&bytes).collect();
    assert_eq!(bytes_to_bits_le(&bytes), outside);
}

#[test]
fn shape_follows_the_answers_on_each_character() {
    assert!(shape_is_valid(&[('a', true, false)]));
    assert!(shape_is_valid(&[('_', false, false), ('9', true, true)]));
    assert!(!shape_is_valid(&[]));
    assert!(!shape_is_valid(&[('9', true, true), ('a', true, false)]));
    assert!(!shape_is_valid(&[('a', true, false), ('-', false, false)]));
    assert!(!shape_is_valid(&[('_', false, false), ('_', false, false)]));
    // The answers decide, not the character.
    assert!(shape_is_valid(&[('-', true, false)]));
    assert!(!shape_is_valid(&[('a', false, false)]));
}
