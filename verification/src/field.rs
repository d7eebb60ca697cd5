//! Values of the scalar field of BLS12-377, held by their canonical limbs.
//!
//! The arithmetic of the field is the work of `snarkvm_fields` and
//! `snarkvm_curves`. This module keeps a field value as the four 64-bit limbs
//! of its canonical representation, gives it a number as its model, and ties
//! the bit and byte conversions of the field library to that number.

use crate::radix::{
    bits_to_bytes_le, bits_value, bytes_to_bits_le, bytes_value, le_bytes,
    lemma_bits_of_bytes_value, lemma_bits_value_bound, lemma_bits_value_concat,
    lemma_bytes_of_bits_value, lemma_le_bytes_of_value, lemma_pow2_add, lemma_pow2_values,
    pow2,
};
use snarkvm_curves::bls12_377::{Fr, FrParameters};
use snarkvm_fields::{FieldParameters, PrimeField};
use snarkvm_utilities::{BigInteger256, FromBits, ToBits};
use vstd::prelude::*;
use vstd::slice::slice_subrange;

verus! {

/// The number of bits in the representation of a field value.
pub const REPR_BITS: usize = 256;

/// The number of bytes in the representation of a field value.
pub const REPR_BYTES: usize = 32;

/// The number of bits of arbitrary data that one field value carries.
pub const DATA_BITS: usize = 252;

/// The order of the field.
pub open spec fn modulus() -> nat {
    8444461749428370424248824938781546531375899335154063827935233455917409239041nat
}

/// The number that four limbs denote, least significant limb first.
pub open spec fn limbs_value(limbs: [u64; 4]) -> nat {
    limbs[0] as nat + limbs[1] as nat * pow2(64) + limbs[2] as nat * pow2(128) + limbs[3] as nat
        * pow2(192)
}

/// Powers of two that bound the field.
pub proof fn lemma_pow2_landmarks()
    ensures
        pow2(248) == 452312848583266388373324160190187140051835877600158453279131187530910662656nat,
        pow2(252) == 7237005577332262213973186563042994240829374041602535252466099000494570602496nat,
        pow2(256)
            == 115792089237316195423570985008687907853269984665640564039457584007913129639936nat,
        pow2(252) < modulus() < pow2(256),
{
    lemma_pow2_values();
    lemma_pow2_step(8, 8, 256, 256);
    lemma_pow2_step(16, 16, 65536, 65536);
    lemma_pow2_step(32, 32, 4294967296, 4294967296);
    lemma_pow2_step(64, 64, 18446744073709551616nat, 18446744073709551616nat);
    lemma_pow2_step(
        128,
        64,
        340282366920938463463374607431768211456nat,
        18446744073709551616nat,
    );
    lemma_pow2_step(
        192,
        32,
        6277101735386680763835789423207666416102355444464034512896nat,
        4294967296,
    );
    lemma_pow2_step(
        224,
        16,
        26959946667150639794667015087019630673637144422540572481103610249216nat,
        65536,
    );
    lemma_pow2_step(
        240,
        8,
        1766847064778384329583297500742918515827483896875618958121606201292619776nat,
        256,
    );
    lemma_pow2_step(
        248,
        4,
        452312848583266388373324160190187140051835877600158453279131187530910662656nat,
        16,
    );
    lemma_pow2_step(
        248,
        8,
        452312848583266388373324160190187140051835877600158453279131187530910662656nat,
        256,
    );
}

/// The power of a sum, from the values of the powers of its parts.
proof fn lemma_pow2_step(a: nat, b: nat, power_a: nat, power_b: nat)
    requires
        pow2(a) == power_a,
        pow2(b) == power_b,
    ensures
        pow2(a + b) == power_a * power_b,
{
    lemma_pow2_add(a, b);
}

/// `BigInteger256::from_bits_le` of `snarkvm_utilities`: the limbs that hold
/// the number which the bits denote, least significant bit first. The outside
/// function fills one limb from every 64 bits and has room for four limbs, so
/// longer inputs are left out.
#[verifier::external_body]
fn limbs_from_bits_le(bits: &[bool]) -> (limbs: [u64; 4])
    requires
        bits@.len() <= 256,
    ensures
        limbs_value(limbs) == bits_value(bits@),
{
    BigInteger256::from_bits_le(bits).0
}

/// `BigInteger256::to_bits_le` of `snarkvm_utilities`: all 256 bits of the
/// limbs, least significant first, high-order zeros included.
#[verifier::external_body]
fn limbs_to_bits_le(limbs: &[u64; 4]) -> (bits: Vec<bool>)
    ensures
        bits@.len() == 256,
        bits_value(bits@) == limbs_value(*limbs),
{
    BigInteger256(*limbs).to_bits_le()
}

/// `PrimeField::from_repr` of `snarkvm_fields`, on the scalar field of
/// BLS12-377: a representation stands for a field element exactly when the
/// number it denotes is below the modulus.
#[verifier::external_body]
fn limbs_are_canonical(limbs: &[u64; 4]) -> (canonical: bool)
    ensures
        canonical == (limbs_value(*limbs) < modulus()),
{
    Fr::from_repr(BigInteger256(*limbs)).is_some()
}

/// `FieldParameters::CAPACITY` of the scalar field of BLS12-377 in
/// `snarkvm_curves`: one less than the 253 bits of the modulus.
#[verifier::external_body]
fn capacity_in_bits() -> (bits: usize)
    ensures
        bits == DATA_BITS,
{
    <FrParameters as FieldParameters>::CAPACITY as usize
}

/// An element of the scalar field.
///
/// Its model is the number below the modulus that it stands for.
#[derive(Clone, Copy, Debug, PartialEq, Eq)]
pub struct FieldValue {
    limbs: [u64; 4],
}

impl View for FieldValue {
    type V = nat;

    closed spec fn view(&self) -> nat {
        limbs_value(self.limbs)
    }
}

impl FieldValue {
    /// A field value stands for a number below the modulus.
    #[verifier::type_invariant]
    pub open spec fn canonical(self) -> bool {
        self.view() < modulus()
    }

    /// The number of bits of arbitrary data that fit in one field value.
    pub fn size_in_data_bits() -> (bits: usize)
        ensures
            bits == DATA_BITS,
    {
        capacity_in_bits()
    }

    /// The field value that a little-endian bit sequence denotes, if the
    /// number is below the modulus.
    pub fn from_bits_le(bits: &[bool]) -> (r: Option<FieldValue>)
        ensures
            r is Some <==> bits_value(bits@) < modulus(),
            r matches Some(value) ==> value@ == bits_value(bits@),
    {
        let len: usize = bits.len();
        let low_len: usize = if len > REPR_BITS { REPR_BITS } else { len };
        let ghost low = bits@.subrange(0, low_len as int);
        let ghost high = bits@.subrange(low_len as int, len as int);
        proof {
            assert(bits@ =~= low + high);
            lemma_bits_value_concat(low, high);
            lemma_pow2_landmarks();
        }
        let mut i: usize = low_len;
        while i < len
            invariant
                low_len <= i <= len,
                len == bits@.len(),
                low_len == (if len > REPR_BITS { REPR_BITS } else { len }),
                low == bits@.subrange(0, low_len as int),
                high == bits@.subrange(low_len as int, len as int),
                forall|j: int| low_len <= j < i ==> !bits@[j],
            decreases len - i,
        {
            if bits[i] {
                proof {
                    assert(bits@ =~= low + high);
                    lemma_bits_value_concat(low, high);
                    lemma_pow2_landmarks();
                    assert(high[i - low_len] == bits@[i as int]);
                    lemma_set_bit_value(high, i - low_len);
                    lemma_pow2_positive_product(pow2(low_len as nat), bits_value(high));
                }
                return None;
            }
            i = i + 1;
        }
        proof {
            lemma_clear_bits_value(high);
            assert(pow2(low_len as nat) * 0 == 0) by (nonlinear_arith);
        }
        let limbs: [u64; 4] = limbs_from_bits_le(slice_subrange(bits, 0, low_len));
        if limbs_are_canonical(&limbs) {
            Some(FieldValue { limbs })
        } else {
            None
        }
    }

    /// The field value that a little-endian byte sequence denotes, if the
    /// number is below the modulus.
    pub fn from_bytes_le(bytes: &[u8]) -> (r: Option<FieldValue>)
        requires
            8 * bytes@.len() <= usize::MAX,
        ensures
            r is Some <==> bytes_value(bytes@) < modulus(),
            r matches Some(value) ==> value@ == bytes_value(bytes@),
    {
        let bits: Vec<bool> = bytes_to_bits_le(bytes);
        proof {
            lemma_bits_of_bytes_value(bytes@);
        }
        FieldValue::from_bits_le(bits.as_slice())
    }

    /// The 256 bits of the value's representation, least significant first.
    pub fn to_bits_le(&self) -> (bits: Vec<bool>)
        ensures
            bits@.len() == REPR_BITS,
            bits_value(bits@) == self@,
    {
        limbs_to_bits_le(&self.limbs)
    }

    /// The 32 bytes of the value's representation, least significant first.
    pub fn to_bytes_le(&self) -> (bytes: Vec<u8>)
        ensures
            bytes@ == le_bytes(self@, REPR_BYTES as nat),
    {
        let bits: Vec<bool> = self.to_bits_le();
        let bytes: Vec<u8> = bits_to_bytes_le(bits.as_slice());
        proof {
            lemma_bytes_of_bits_value(bits@);
            lemma_le_bytes_of_value(bytes@, 32);
            assert(bytes@ + crate::radix::zero_bytes(0) =~= bytes@);
        }
        bytes
    }
}

/// A bit sequence with a set bit denotes at least that bit's weight.
proof fn lemma_set_bit_value(bits: Seq<bool>, i: int)
    requires
        0 <= i < bits.len(),
        bits[i],
    ensures
        bits_value(bits) >= 1,
    decreases bits.len(),
{
    if i > 0 {
        lemma_set_bit_value(bits.drop_first(), i - 1);
    }
}

/// A bit sequence without a set bit denotes zero.
proof fn lemma_clear_bits_value(bits: Seq<bool>)
    requires
        forall|j: int| 0 <= j < bits.len() ==> !bits[j],
    ensures
        bits_value(bits) == 0,
    decreases bits.len(),
{
    if bits.len() > 0 {
        lemma_clear_bits_value(bits.drop_first());
    }
}

proof fn lemma_pow2_positive_product(weight: nat, count: nat)
    requires
        count >= 1,
    ensures
        weight * count >= weight,
{
    assert(weight * count >= weight) by (nonlinear_arith)
        requires
            count >= 1,
    ;
}

} // verus!
