//! Little-endian bit and byte sequences, and the numbers they denote.

use vstd::prelude::*;

verus! {

/// The number that a little-endian bit sequence denotes.
pub open spec fn bits_value(bits: Seq<bool>) -> nat
    decreases bits.len(),
{
    if bits.len() == 0 {
        0
    } else {
        (if bits[0] { 1nat } else { 0nat }) + 2 * bits_value(bits.drop_first())
    }
}

/// The number that a little-endian byte sequence denotes.
pub open spec fn bytes_value(bytes: Seq<u8>) -> nat
    decreases bytes.len(),
{
    if bytes.len() == 0 {
        0
    } else {
        bytes[0] as nat + 256 * bytes_value(bytes.drop_first())
    }
}

/// The `len` low-order bytes of `value`, least significant first.
pub open spec fn le_bytes(value: nat, len: nat) -> Seq<u8>
    decreases len,
{
    if len == 0 {
        Seq::empty()
    } else {
        seq![(value % 256) as u8] + le_bytes(value / 256, (len - 1) as nat)
    }
}

/// Two to the power `n`.
pub open spec fn pow2(n: nat) -> nat
    decreases n,
{
    if n == 0 {
        1
    } else {
        2 * pow2((n - 1) as nat)
    }
}

/// `len` zero bytes.
pub open spec fn zero_bytes(len: nat) -> Seq<u8> {
    Seq::new(len, |i: int| 0u8)
}

/// Bit `k` of a byte, counted from the least significant.
pub open spec fn byte_bit(byte: u8, k: nat) -> bool {
    (byte as nat / pow2(k)) % 2 == 1
}

/// The eight bits of a byte, least significant first.
pub open spec fn byte_bits(byte: u8) -> Seq<bool> {
    Seq::new(8, |k: int| byte_bit(byte, k as nat))
}

/// The bits of a byte sequence: eight per byte, each byte least significant
/// bit first, the bytes in their order.
pub open spec fn bits_of_bytes(bytes: Seq<u8>) -> Seq<bool> {
    Seq::new(8 * bytes.len(), |i: int| byte_bit(bytes[i / 8], (i % 8) as nat))
}

/// The chunk of at most eight bits that makes byte `i` of a bit sequence.
pub open spec fn bit_chunk(bits: Seq<bool>, i: int) -> Seq<bool> {
    bits.subrange(8 * i, if 8 * i + 8 <= bits.len() { 8 * i + 8 } else { bits.len() as int })
}

/// The bytes of a bit sequence: each run of eight bits makes one byte, least
/// significant bit first; a shorter last run is read as if padded with zeros.
pub open spec fn bytes_of_bits(bits: Seq<bool>) -> Seq<u8> {
    Seq::new((bits.len() + 7) / 8, |i: int| bits_value(bit_chunk(bits, i)) as u8)
}

/// The first powers of two.
pub proof fn lemma_pow2_values()
    ensures
        pow2(0) == 1,
        pow2(1) == 2,
        pow2(2) == 4,
        pow2(3) == 8,
        pow2(4) == 16,
        pow2(5) == 32,
        pow2(6) == 64,
        pow2(7) == 128,
        pow2(8) == 256,
{
    reveal_with_fuel(pow2, 10);
}

/// The power of a sum is the product of the powers.
pub proof fn lemma_pow2_add(a: nat, b: nat)
    ensures
        pow2(a + b) == pow2(a) * pow2(b),
    decreases a,
{
    let y = pow2(b);
    if a == 0 {
        assert(pow2(a) == 1);
        assert(1 * y == y) by (nonlinear_arith);
    } else {
        let x = pow2((a - 1) as nat);
        lemma_pow2_add((a - 1) as nat, b);
        assert(pow2(a) == 2 * x);
        assert(pow2(a + b) == 2 * pow2(((a - 1) as nat) + b));
        assert(2 * (x * y) == (2 * x) * y) by (nonlinear_arith);
    }
}

/// The value of a concatenation: the second part counts from the bit after
/// the first part's last.
pub proof fn lemma_bits_value_concat(low: Seq<bool>, high: Seq<bool>)
    ensures
        bits_value(low + high) == bits_value(low) + pow2(low.len()) * bits_value(high),
    decreases low.len(),
{
    let h = bits_value(high);
    if low.len() == 0 {
        assert(low + high =~= high);
        assert(pow2(0) == 1);
        assert(1 * h == h) by (nonlinear_arith);
    } else {
        let rest = low.drop_first();
        let p = pow2(rest.len());
        assert((low + high).drop_first() =~= rest + high);
        assert((low + high)[0] == low[0]);
        lemma_bits_value_concat(rest, high);
        assert(pow2(low.len()) == 2 * p);
        assert(2 * (p * h) == (2 * p) * h) by (nonlinear_arith);
    }
}

/// A bit sequence denotes a number below two to the power of its length.
pub proof fn lemma_bits_value_bound(bits: Seq<bool>)
    ensures
        bits_value(bits) < pow2(bits.len()),
    decreases bits.len(),
{
    if bits.len() > 0 {
        lemma_bits_value_bound(bits.drop_first());
    }
}

/// Appending one bit adds its weight.
pub proof fn lemma_bits_value_push(bits: Seq<bool>, bit: bool)
    ensures
        bits_value(bits.push(bit)) == bits_value(bits) + (if bit {
            pow2(bits.len())
        } else {
            0
        }),
{
    let one = seq![bit];
    assert(bits.push(bit) =~= bits + one);
    lemma_bits_value_concat(bits, one);
    assert(one.drop_first() =~= Seq::<bool>::empty());
    assert(bits_value(one) == if bit { 1nat } else { 0nat }) by {
        reveal_with_fuel(bits_value, 2);
    }
    assert(pow2(bits.len()) * 1 == pow2(bits.len())) by (nonlinear_arith);
    assert(pow2(bits.len()) * 0 == 0) by (nonlinear_arith);
}

/// A byte sequence denotes a number below 256 to the power of its length.
pub proof fn lemma_bytes_value_bound(bytes: Seq<u8>)
    ensures
        bytes_value(bytes) < pow2(8 * bytes.len()),
    decreases bytes.len(),
{
    if bytes.len() > 0 {
        let rest = bytes.drop_first();
        lemma_bytes_value_bound(rest);
        lemma_pow2_add(8, 8 * rest.len());
        lemma_pow2_values();
    }
}

/// The bytes of zero are zero bytes.
pub proof fn lemma_le_bytes_zero(len: nat)
    ensures
        le_bytes(0, len) == zero_bytes(len),
    decreases len,
{
    if len > 0 {
        lemma_le_bytes_zero((len - 1) as nat);
        assert(le_bytes(0, len) =~= zero_bytes(len));
    } else {
        assert(le_bytes(0, len) =~= zero_bytes(len));
    }
}

/// A number written on `len` bytes takes `len` bytes.
pub proof fn lemma_le_bytes_len(value: nat, len: nat)
    ensures
        le_bytes(value, len).len() == len,
    decreases len,
{
    if len > 0 {
        lemma_le_bytes_len(value / 256, (len - 1) as nat);
    }
}

/// Writing a number out on at least as many bytes as it was read from gives
/// the bytes back, followed by zeros.
pub proof fn lemma_le_bytes_of_value(bytes: Seq<u8>, len: nat)
    requires
        bytes.len() <= len,
    ensures
        le_bytes(bytes_value(bytes), len) == bytes + zero_bytes((len - bytes.len()) as nat),
    decreases bytes.len(),
{
    if bytes.len() == 0 {
        lemma_le_bytes_zero(len);
        assert(bytes + zero_bytes(len) =~= zero_bytes(len));
    } else {
        let rest = bytes.drop_first();
        let value = bytes_value(bytes);
        assert(value % 256 == bytes[0] as nat);
        assert(value / 256 == bytes_value(rest));
        lemma_le_bytes_of_value(rest, (len - 1) as nat);
        assert(le_bytes(value, len) =~= bytes + zero_bytes((len - bytes.len()) as nat));
    }
}

/// Reading back what was written gives the number, if it fits.
pub proof fn lemma_value_of_le_bytes(value: nat, len: nat)
    requires
        value < pow2(8 * len),
    ensures
        bytes_value(le_bytes(value, len)) == value,
    decreases len,
{
    if len > 0 {
        let rest = le_bytes(value / 256, (len - 1) as nat);
        lemma_pow2_add(8, (8 * (len - 1)) as nat);
        lemma_pow2_values();
        assert(le_bytes(value, len).drop_first() =~= rest);
        lemma_value_of_le_bytes(value / 256, (len - 1) as nat);
    }
}

/// The `len` low-order bits of a number, least significant first.
pub open spec fn low_bits(value: nat, len: nat) -> Seq<bool> {
    Seq::new(len, |k: int| (value / pow2(k as nat)) % 2 == 1)
}

/// A power of two is positive.
pub proof fn lemma_pow2_positive(n: nat)
    ensures
        pow2(n) > 0,
    decreases n,
{
    if n > 0 {
        lemma_pow2_positive((n - 1) as nat);
    }
}

/// The low-order bits of a number that fits in them denote the number.
pub proof fn lemma_low_bits_value(value: nat, len: nat)
    requires
        value < pow2(len),
    ensures
        bits_value(low_bits(value, len)) == value,
    decreases len,
{
    let bits = low_bits(value, len);
    if len == 0 {
    } else {
        let rest = low_bits(value / 2, (len - 1) as nat);
        assert(bits.drop_first() =~= rest) by {
            assert forall|k: int| 0 <= k < len - 1 implies bits.drop_first()[k] == rest[k] by {
                lemma_pow2_positive(k as nat);
                vstd::arithmetic::div_mod::lemma_div_denominator(
                    value as int,
                    2,
                    pow2(k as nat) as int,
                );
                assert(pow2((k + 1) as nat) == 2 * pow2(k as nat));
            }
        }
        assert(pow2(0) == 1);
        assert(bits[0] == ((value / pow2(0int as nat)) % 2 == 1));
        assert(value / 1 == value);
        assert(bits[0] == (value % 2 == 1));
        lemma_low_bits_value(value / 2, (len - 1) as nat);
    }
}

/// The eight bits of a byte denote the byte.
pub proof fn lemma_byte_bits_value(byte: u8)
    ensures
        bits_value(byte_bits(byte)) == byte,
{
    lemma_pow2_values();
    assert(byte_bits(byte) =~= low_bits(byte as nat, 8));
    lemma_low_bits_value(byte as nat, 8);
}

/// The bits of a byte sequence denote the same number as the bytes.
pub proof fn lemma_bits_of_bytes_value(bytes: Seq<u8>)
    ensures
        bits_value(bits_of_bytes(bytes)) == bytes_value(bytes),
    decreases bytes.len(),
{
    if bytes.len() == 0 {
        assert(bits_of_bytes(bytes) =~= Seq::<bool>::empty());
    } else {
        let rest = bytes.drop_first();
        let low = byte_bits(bytes[0]);
        let high = bits_of_bytes(rest);
        assert(bits_of_bytes(bytes) =~= low + high) by {
            assert forall|i: int| 0 <= i < 8 * bytes.len() implies bits_of_bytes(bytes)[i] == (low
                + high)[i] by {
                if i >= 8 {
                    assert((i - 8) / 8 == i / 8 - 1);
                    assert((i - 8) % 8 == i % 8);
                }
            }
        }
        lemma_bits_value_concat(low, high);
        lemma_byte_bits_value(bytes[0]);
        lemma_bits_of_bytes_value(rest);
        lemma_pow2_values();
    }
}

/// The bytes of a bit sequence denote the same number as the bits.
pub proof fn lemma_bytes_of_bits_value(bits: Seq<bool>)
    ensures
        bytes_value(bytes_of_bits(bits)) == bits_value(bits),
    decreases bits.len(),
{
    if bits.len() == 0 {
        assert(bytes_of_bits(bits) =~= Seq::<u8>::empty());
    } else {
        let m: int = if bits.len() >= 8 { 8 } else { bits.len() as int };
        let low = bits.subrange(0, m);
        let high = bits.subrange(m, bits.len() as int);
        assert(bits =~= low + high);
        assert(bit_chunk(bits, 0) =~= low);
        lemma_bits_value_concat(low, high);
        lemma_bits_value_bound(low);
        lemma_pow2_values();
        assert(pow2(m as nat) <= 256);
        lemma_bytes_of_bits_value(high);
        assert(bytes_of_bits(bits).drop_first() =~= bytes_of_bits(high)) by {
            assert forall|i: int| 0 <= i < bytes_of_bits(high).len() implies bytes_of_bits(
                bits,
            ).drop_first()[i] == bytes_of_bits(high)[i] by {
                assert(bit_chunk(bits, i + 1) =~= bit_chunk(high, i));
            }
        }
        if m < 8 {
            assert(high =~= Seq::<bool>::empty());
            assert(bits_value(high) == 0);
            assert(pow2(m as nat) * 0 == 0) by (nonlinear_arith);
        }
    }
}

/// Regrouping the bits of a byte sequence gives the bytes back.
pub proof fn lemma_bytes_of_bits_of_bytes(bytes: Seq<u8>)
    ensures
        bytes_of_bits(bits_of_bytes(bytes)) == bytes,
{
    let bits = bits_of_bytes(bytes);
    assert forall|i: int| 0 <= i < bytes.len() implies bytes_of_bits(bits)[i] == bytes[i] by {
        assert(bit_chunk(bits, i) =~= byte_bits(bytes[i])) by {
            assert forall|k: int| 0 <= k < 8 implies bit_chunk(bits, i)[k] == byte_bits(
                bytes[i],
            )[k] by {
                assert((8 * i + k) / 8 == i);
                assert((8 * i + k) % 8 == k);
            }
        }
        lemma_byte_bits_value(bytes[i]);
    }
    assert(bytes_of_bits(bits) =~= bytes);
}

/// The bits of a byte sequence, least significant bit of the first byte first.
pub fn bytes_to_bits_le(bytes: &[u8]) -> (bits: Vec<bool>)
    requires
        8 * bytes@.len() <= usize::MAX,
    ensures
        bits@ == bits_of_bytes(bytes@),
{
    let mut bits: Vec<bool> = Vec::new();
    let mut i: usize = 0;
    while i < bytes.len()
        invariant
            i <= bytes@.len(),
            8 * bytes@.len() <= usize::MAX,
            bits@.len() == 8 * i,
            forall|j: int| 0 <= j < 8 * i ==> bits@[j] == byte_bit(bytes@[j / 8], (j % 8) as nat),
        decreases bytes@.len() - i,
    {
        let byte: u8 = bytes[i];
        let mut rest: u8 = byte;
        let mut k: usize = 0;
        proof {
            lemma_pow2_values();
        }
        while k < 8
            invariant
                k <= 8,
                i < bytes@.len(),
                byte == bytes@[i as int],
                8 * bytes@.len() <= usize::MAX,
                rest as nat == byte as nat / pow2(k as nat),
                bits@.len() == 8 * i + k,
                forall|j: int|
                    0 <= j < 8 * i + k ==> bits@[j] == byte_bit(bytes@[j / 8], (j % 8) as nat),
            decreases 8 - k,
        {
            proof {
                lemma_pow2_values();
                assert(pow2((k + 1) as nat) == 2 * pow2(k as nat));
                assert((byte as nat / pow2(k as nat)) / 2 == byte as nat / (2 * pow2(k as nat)))
                    by (nonlinear_arith)
                    requires
                        pow2(k as nat) > 0,
                ;
                assert((8 * i + k) / 8 == i as int);
                assert((8 * i + k) % 8 == k as int);
            }
            bits.push(rest % 2 == 1);
            rest = rest / 2;
            k = k + 1;
        }
        i = i + 1;
    }
    proof {
        assert(bits@ =~= bits_of_bytes(bytes@));
    }
    bits
}

/// The bytes of a bit sequence: every eight bits make a byte, least
/// significant first, and a shorter last run makes one more.
pub fn bits_to_bytes_le(bits: &[bool]) -> (bytes: Vec<u8>)
    ensures
        bytes@ == bytes_of_bits(bits@),
{
    let len: usize = bits.len();
    let mut bytes: Vec<u8> = Vec::new();
    let mut start: usize = 0;
    while start < len
        invariant
            len == bits@.len(),
            start <= len,
            start % 8 == 0 || start == len,
            bytes@.len() == (start + 7) / 8,
            forall|i: int|
                0 <= i < bytes@.len() ==> bytes@[i] == bits_value(bit_chunk(bits@, i)) as u8,
        decreases len - start,
    {
        let end: usize = if len - start >= 8 { start + 8 } else { len };
        let ghost chunk = bits@.subrange(start as int, end as int);
        let mut acc: u16 = 0;
        let mut weight: u16 = 1;
        let mut j: usize = start;
        while j < end
            invariant
                len == bits@.len(),
                start <= j <= end <= len,
                end - start <= 8,
                chunk == bits@.subrange(start as int, end as int),
                weight as nat == pow2((j - start) as nat),
                acc as nat == bits_value(chunk.subrange(0, j - start)),
                acc < weight,
            decreases end - j,
        {
            proof {
                lemma_pow2_values();
                let prefix = chunk.subrange(0, j - start);
                assert(chunk.subrange(0, j + 1 - start) =~= prefix.push(bits@[j as int]));
                lemma_bits_value_push(prefix, bits@[j as int]);
                assert(pow2((j + 1 - start) as nat) == 2 * pow2((j - start) as nat));
            }
            if bits[j] {
                acc = acc + weight;
            }
            weight = weight * 2;
            j = j + 1;
        }
        proof {
            lemma_pow2_values();
            assert(chunk.subrange(0, end - start) =~= chunk);
            assert(start / 8 == bytes@.len());
            assert(bit_chunk(bits@, bytes@.len() as int) =~= chunk);
        }
        bytes.push(acc as u8);
        start = end;
    }
    proof {
        assert(bytes@ =~= bytes_of_bits(bits@));
    }
    bytes
}

/// A larger exponent gives no smaller power.
pub proof fn lemma_pow2_monotonic(a: nat, b: nat)
    requires
        a <= b,
    ensures
        pow2(a) <= pow2(b),
{
    lemma_pow2_add(a, (b - a) as nat);
    lemma_pow2_positive((b - a) as nat);
    let x = pow2(a);
    let y = pow2((b - a) as nat);
    assert(x * y >= x) by (nonlinear_arith)
        requires
            y >= 1,
    ;
}

} // verus!
