//! The bit-register view of a byte buffer.
//!
//! The wire format packs fields that are not byte aligned, so the codec treats
//! a byte buffer as one continuous string of bits. Two numbering conventions
//! meet here. The serializer fills *stream positions*: position 0 is the
//! least-significant bit of the first byte, position 7 its most-significant
//! bit, position 8 the least-significant bit of the second byte, and so on.
//! [`read_bits`] uses *addresses*, the mirror image: address 0 is the
//! most-significant bit of the last byte and address `8 * len - 1` is stream
//! position 0. The spec-level model below speaks in stream positions only;
//! `read_bits`'s contract translates between the two.

use vstd::arithmetic::div_mod::{
    lemma_basic_div, lemma_breakdown, lemma_div_basics, lemma_div_denominator,
    lemma_fundamental_div_mod, lemma_fundamental_div_mod_converse, lemma_hoist_over_denominator,
    lemma_mod_multiples_vanish, lemma_multiply_divide_lt,
};
use vstd::arithmetic::power2::{
    lemma2_to64, lemma_pow2_adds, lemma_pow2_pos, lemma_pow2_strictly_increases, lemma_pow2_unfold,
    pow2,
};
use vstd::prelude::*;

verus! {

/// True when bit `j` of `v` is set, counting bit 0 as the least significant.
pub open spec fn nth_bit(v: nat, j: nat) -> bool {
    v / pow2(j) % 2 == 1
}

/// The bit of a byte buffer at stream position `p`: bit `p % 8` (from the
/// least-significant end) of byte `p / 8`.
pub open spec fn stream_bit(bytes: Seq<u8>, p: int) -> bool {
    nth_bit(bytes[p / 8] as nat, (p % 8) as nat)
}

/// The value of the `width` stream bits starting at position `start`, read
/// least-significant first: the bit at `start` is the lowest bit of the value.
pub open spec fn bits_value(bytes: Seq<u8>, start: int, width: nat) -> nat
    decreases width,
{
    if width == 0 {
        0
    } else {
        (if stream_bit(bytes, start) {
            1nat
        } else {
            0nat
        }) + 2 * bits_value(bytes, start + 1, (width - 1) as nat)
    }
}

/// A field of `width` bits is always smaller than `pow2(width)`.
pub proof fn lemma_bits_value_bound(bytes: Seq<u8>, start: int, width: nat)
    ensures
        bits_value(bytes, start, width) < pow2(width),
    decreases width,
{
    if width == 0 {
        lemma2_to64();
    } else {
        lemma_bits_value_bound(bytes, start + 1, (width - 1) as nat);
        lemma_pow2_unfold(width);
    }
}

/// Dividing by two powers of two in turn is dividing by their product.
pub proof fn lemma_div_pow2_adds(v: nat, a: nat, b: nat)
    ensures
        v / pow2(a) / pow2(b) == v / pow2(a + b),
{
    lemma_pow2_pos(a);
    lemma_pow2_pos(b);
    lemma_div_denominator(v as int, pow2(a) as int, pow2(b) as int);
    lemma_pow2_adds(a, b);
}

/// If the stream bits at `start .. start + width` spell out the low bits of
/// `v` (lowest bit first), their value is `v` reduced modulo `pow2(width)`.
pub proof fn lemma_bits_value_of_bits(bytes: Seq<u8>, start: int, width: nat, v: nat)
    requires
        forall|j: int|
            0 <= j < width ==> #[trigger] stream_bit(bytes, start + j) == nth_bit(v, j as nat),
    ensures
        bits_value(bytes, start, width) == v % pow2(width),
    decreases width,
{
    lemma2_to64();
    if width == 0 {
        assert(v % pow2(0) == 0);
    } else {
        let w1 = (width - 1) as nat;
        assert forall|j: int|
            0 <= j < w1 implies #[trigger] stream_bit(bytes, start + 1 + j) == nth_bit(
            v / 2,
            j as nat,
        ) by {
            assert(stream_bit(bytes, start + (j + 1)) == nth_bit(v, (j + 1) as nat));
            lemma_div_pow2_adds(v, 1, j as nat);
        }
        lemma_bits_value_of_bits(bytes, start + 1, w1, v / 2);
        lemma_pow2_unfold(width);
        lemma_pow2_pos(w1);
        lemma_breakdown(v as int, 2, pow2(w1) as int);
        assert(stream_bit(bytes, start + 0) == nth_bit(v, 0));
        assert(v / pow2(0) == v) by {
            lemma_div_basics(v as int);
        }
    }
}

/// A value below `pow2(j)` has no bit at `j` or above it set.
pub proof fn lemma_low_value_high_bits(b: nat, j: nat)
    requires
        b < pow2(j),
    ensures
        forall|j2: nat| j2 >= j ==> !#[trigger] nth_bit(b, j2),
{
    assert forall|j2: nat| j2 >= j implies !nth_bit(b, j2) by {
        if j2 > j {
            lemma_pow2_strictly_increases(j, j2);
        }
        lemma_pow2_pos(j2);
        lemma_basic_div(b as int, pow2(j2) as int);
    }
}

/// Adding `pow2(j)` to a value whose bits at `j` and above are clear sets
/// exactly bit `j` and leaves every other bit as it was.
pub proof fn lemma_add_high_bit(b: nat, j: nat)
    requires
        b < pow2(j),
    ensures
        b + pow2(j) < pow2(j + 1),
        nth_bit(b + pow2(j), j),
        forall|j2: nat| j2 < j ==> #[trigger] nth_bit(b + pow2(j), j2) == nth_bit(b, j2),
        forall|j2: nat| j2 > j ==> !#[trigger] nth_bit(b + pow2(j), j2),
{
    lemma_pow2_pos(j);
    lemma_pow2_unfold(j + 1);
    let s: nat = b + pow2(j);
    assert(s < pow2(j + 1));
    assert(nth_bit(s, j)) by {
        lemma_hoist_over_denominator(b as int, 1, pow2(j));
        assert(s as int / pow2(j) as int == b as int / pow2(j) as int + 1);
        lemma_basic_div(b as int, pow2(j) as int);
    }
    assert forall|j2: nat| j2 < j implies nth_bit(s, j2) == nth_bit(b, j2) by {
        let d = pow2(j2);
        lemma_pow2_pos(j2);
        let m = pow2((j - j2) as nat);
        lemma_pow2_adds(j2, (j - j2) as nat);
        assert(pow2(j) == d * m);
        assert(m * d == d * m) by {
            vstd::arithmetic::mul::lemma_mul_is_commutative(m as int, d as int);
        }
        lemma_hoist_over_denominator(b as int, m as int, d);
        assert(s as int / d as int == b as int / d as int + m);
        assert(m % 2 == 0) by {
            lemma_pow2_unfold((j - j2) as nat);
        }
        let q: int = b as int / d as int;
        assert(q >= 0) by {
            vstd::arithmetic::div_mod::lemma_div_pos_is_pos(b as int, d as int);
        }
        assert(m == 2 * (m / 2)) by {
            lemma_fundamental_div_mod(m as int, 2);
        }
        assert((2 * (m as int / 2) + q) % 2 == q % 2) by {
            lemma_mod_multiples_vanish(m as int / 2, q, 2);
        }
        assert((q + m) % 2 == q % 2);
    }
    assert forall|j2: nat| j2 > j implies !nth_bit(s, j2) by {
        lemma_low_value_high_bits(s, j + 1);
    }
}

/// Converts a stream position to the byte index and in-byte bit index it
/// names: position `8 * q + r` is bit `r` of byte `q`.
pub proof fn lemma_stream_bit_index(p: int, q: int, r: int)
    requires
        p == 8 * q + r,
        0 <= q,
        0 <= r < 8,
    ensures
        p / 8 == q,
        p % 8 == r,
{
    lemma_fundamental_div_mod_converse(p, 8, q, r);
}

/// Executable table of the powers of two that fit in a byte.
pub fn pow2_u8(e: usize) -> (r: u8)
    requires
        e < 8,
    ensures
        r as nat == pow2(e as nat),
        r >= 1,
{
    proof {
        lemma2_to64();
    }
    if e == 0 {
        1
    } else if e == 1 {
        2
    } else if e == 2 {
        4
    } else if e == 3 {
        8
    } else if e == 4 {
        16
    } else if e == 5 {
        32
    } else if e == 6 {
        64
    } else {
        128
    }
}

/// Reads `bits_amount` bits from `data` starting at bit address `position`.
///
/// Addresses run from the most-significant bit of the last byte (address 0)
/// to the least-significant bit of the first byte (address `8 * len - 1`),
/// and the first bit visited becomes the most significant bit of the result.
/// Under the stream-position convention this is exactly the value of the
/// `bits_amount` stream bits that end `position` bits below the top of the
/// buffer, which is what the contract states.
pub fn read_bits(data: &Vec<u8>, position: usize, bits_amount: u8) -> (r: u32)
    requires
        bits_amount <= 32,
        position + bits_amount <= 8 * data@.len(),
        8 * data@.len() <= usize::MAX,
    ensures
        r as nat == bits_value(
            data@,
            8 * data@.len() - position - bits_amount,
            bits_amount as nat,
        ),
{
    let ghost total: int = 8 * data@.len() as int;
    let mut acc: u32 = 0;
    let mut i: usize = 0;
    while i < bits_amount as usize
        invariant
            i <= bits_amount,
            bits_amount <= 32,
            position + bits_amount <= total,
            total <= usize::MAX,
            total == 8 * data@.len() as int,
            acc as nat == bits_value(data@, total - position - i, i as nat),
        decreases bits_amount - i,
    {
        let addr: usize = position + i;
        let byte_from_end: usize = addr / 8;
        let bit_in_byte: usize = addr % 8;
        proof {
            lemma_multiply_divide_lt(addr as int, 8, data@.len() as int);
        }
        let cur_byte: u8 = data[data.len() - 1 - byte_from_end];
        let mask: u8 = pow2_u8(7 - bit_in_byte);
        let bit: u8 = (cur_byte / mask) % 2;
        proof {
            let p = total - addr - 1;
            lemma_stream_bit_index(p, data@.len() - 1 - byte_from_end, 7 - bit_in_byte);
            assert(stream_bit(data@, p) == (bit == 1));
            lemma_bits_value_bound(data@, total - position - i, i as nat);
            lemma2_to64();
            if (i as nat) < 31 {
                lemma_pow2_strictly_increases(i as nat, 31);
            }
            assert(acc < 0x8000_0000u32);
            assert(bit + 2 * acc == bits_value(data@, total - position - (i + 1), (i + 1) as nat));
        }
        acc = acc * 2 + bit as u32;
        i = i + 1;
    }
    acc
}

} // verus!
