//! The bit-packing codec: forms to wire bytes and back.
//!
//! Each form becomes a group of `10 + prefix_len` bits: `prefix_len` in the
//! five lowest bits, `bit_count` in the five above, the prefix above those.
//! Groups are packed one after the other from stream position 0 (see
//! [`crate::bits`]), and the last byte is padded with zero bits. The
//! deserializer walks the same stream back from position 0 and performs no
//! semantic validation: wire input must be re-validated before it is trusted.

use crate::bits::{
    bits_value, lemma_add_high_bit, lemma_bits_value_bound, lemma_bits_value_of_bits,
    lemma_div_pow2_adds, lemma_low_value_high_bits, lemma_stream_bit_index, nth_bit, pow2_u8,
    read_bits, stream_bit,
};
use crate::scheme::{
    is_valid_scheme, multi_form_ok_at, EncodingSchemeError, EncodingSchemeForm,
};
use vstd::arithmetic::div_mod::{
    lemma_basic_div, lemma_div_basics, lemma_div_multiples_vanish_fancy,
    lemma_fundamental_div_mod_converse, lemma_mod_multiples_vanish, lemma_multiply_divide_lt,
    lemma_small_mod,
};
use vstd::arithmetic::power2::{
    lemma2_to64, lemma_pow2_adds, lemma_pow2_strictly_increases, pow2,
};
use vstd::prelude::*;

verus! {

/// The serializer's per-field range checks: `prefix_len` at most 31 and
/// `bit_count` between 1 and 31.
pub open spec fn form_ranges_ok(f: EncodingSchemeForm) -> bool {
    &&& f.prefix_len <= 31
    &&& 1 <= f.bit_count <= 31
}

/// A prefix that fits the width its form announces. A form that passes the
/// range checks but carries a wider prefix cannot be emitted faithfully, and
/// the serializer treats it as a programming fault rather than an error.
pub open spec fn form_prefix_fits(f: EncodingSchemeForm) -> bool {
    (form_ranges_ok(f) && f.prefix_len > 0) ==> f.prefix < pow2(f.prefix_len as nat)
}

/// Every form's prefix fits its announced width.
pub open spec fn forms_fit(s: Seq<EncodingSchemeForm>) -> bool {
    forall|i: int| 0 <= i < s.len() ==> form_prefix_fits(#[trigger] s[i])
}

/// The number of wire bits one form occupies.
pub open spec fn form_width(f: EncodingSchemeForm) -> nat {
    (10 + f.prefix_len) as nat
}

/// The number of wire bits a whole form list occupies.
pub open spec fn total_width(s: Seq<EncodingSchemeForm>) -> nat
    decreases s.len(),
{
    if s.len() == 0 {
        0
    } else {
        total_width(s.drop_last()) + form_width(s.last())
    }
}

/// The stream position where form `k`'s bit group starts.
pub open spec fn form_offset(s: Seq<EncodingSchemeForm>, k: int) -> nat {
    total_width(s.take(k))
}

/// The packed field value of one form: `prefix_len` in the low five bits,
/// `bit_count` in the five above, the prefix (if any) above those.
pub open spec fn form_value(f: EncodingSchemeForm) -> nat {
    (f.prefix_len + 32 * f.bit_count + (if f.prefix_len > 0 {
        1024 * f.prefix
    } else {
        0
    })) as nat
}

/// The bits of form `k`'s group, read from `bytes` at the form's offset,
/// spell out `form_value` lowest bit first.
pub open spec fn chunk_ok(bytes: Seq<u8>, s: Seq<EncodingSchemeForm>, k: int) -> bool {
    forall|b: int|
        0 <= b < form_width(s[k]) ==> #[trigger] stream_bit(bytes, form_offset(s, k) + b)
            == nth_bit(form_value(s[k]), b as nat)
}

/// Form `k` of `s` can be read back from `bytes`: its three fields stand at
/// the form's offset as five, five and `prefix_len` bits.
pub open spec fn form_encoded_at(bytes: Seq<u8>, s: Seq<EncodingSchemeForm>, k: int) -> bool {
    let off = form_offset(s, k) as int;
    let f = s[k];
    &&& bits_value(bytes, off, 5) == f.prefix_len
    &&& bits_value(bytes, off + 5, 5) == f.bit_count
    &&& (f.prefix_len > 0 ==> bits_value(bytes, off + 10, f.prefix_len as nat) == f.prefix)
}

/// `bytes` is the wire encoding of `s`: exactly `ceil(total_width / 8)`
/// bytes, every form's fields in place, and every unused bit of the final
/// byte zero (the padding guarantee).
pub open spec fn encodes(bytes: Seq<u8>, s: Seq<EncodingSchemeForm>) -> bool {
    &&& bytes.len() == (total_width(s) + 7) / 8
    &&& forall|k: int| 0 <= k < s.len() ==> #[trigger] form_encoded_at(bytes, s, k)
    &&& forall|p: int| total_width(s) <= p < 8 * bytes.len() ==> !stream_bit(bytes, p)
}

/// Dropping the last form of a longer take leaves the shorter take.
proof fn lemma_total_width_take_succ(s: Seq<EncodingSchemeForm>, k: int)
    requires
        0 <= k < s.len(),
    ensures
        total_width(s.take(k + 1)) == total_width(s.take(k)) + form_width(s[k]),
{
    assert(s.take(k + 1).drop_last() =~= s.take(k));
    assert(s.take(k + 1).last() == s[k]);
}

/// A form's offset, plus everything from that form on, stays within the
/// total width.
proof fn lemma_offset_le_total(s: Seq<EncodingSchemeForm>, k: int)
    requires
        0 <= k <= s.len(),
    ensures
        total_width(s.take(k)) <= total_width(s),
    decreases s.len() - k,
{
    if k == s.len() {
        assert(s.take(k) =~= s);
    } else {
        lemma_total_width_take_succ(s, k);
        lemma_offset_le_total(s, k + 1);
    }
}

/// Splits `(w + 7) / 8` (the byte length of a `w`-bit stream) around `w / 8`.
proof fn lemma_ceil_div8(w: int)
    requires
        0 <= w,
    ensures
        w % 8 != 0 ==> (w + 7) / 8 == w / 8 + 1,
        w % 8 == 0 ==> (w + 7) / 8 == w / 8,
{
    if w % 8 != 0 {
        lemma_fundamental_div_mod_converse(w + 7, 8, w / 8 + 1, w % 8 - 1);
    } else {
        lemma_fundamental_div_mod_converse(w + 7, 8, w / 8, 7);
    }
}

/// A buffer that holds a `w`-bit stream in `ceil(w / 8)` bytes, with the
/// value of its last byte below `pow2(w % 8)`, has only zero bits at `w` and
/// above.
proof fn lemma_padding_zero(bytes: Seq<u8>, w: int)
    requires
        0 <= w,
        bytes.len() == (w + 7) / 8,
        w % 8 != 0 ==> (bytes[w / 8] as nat) < pow2((w % 8) as nat),
        w % 8 == 0 ==> 8 * bytes.len() == w,
    ensures
        forall|p: int| w <= p < 8 * bytes.len() ==> !stream_bit(bytes, p),
{
    lemma_ceil_div8(w);
    if w % 8 != 0 {
        assert forall|p: int| w <= p < 8 * bytes.len() implies !stream_bit(bytes, p) by {
            let q = w / 8;
            let r = p - 8 * q;
            lemma_stream_bit_index(p, q, r);
            lemma_low_value_high_bits(bytes[q] as nat, (w % 8) as nat);
        }
    }
}

/// Reads the three fields of one encoded form out of its bit group.
proof fn lemma_chunk_fields(bytes: Seq<u8>, s: Seq<EncodingSchemeForm>, k: int)
    requires
        0 <= k < s.len(),
        form_ranges_ok(s[k]),
        form_prefix_fits(s[k]),
        chunk_ok(bytes, s, k),
    ensures
        form_encoded_at(bytes, s, k),
{
    let f = s[k];
    let off = form_offset(s, k) as int;
    let v = form_value(f);
    let pl = f.prefix_len as nat;
    let rest: nat = (f.bit_count + (if f.prefix_len > 0 {
        32 * f.prefix
    } else {
        0
    })) as nat;
    lemma2_to64();
    assert(v == 32 * rest + f.prefix_len);
    // the low five bits hold prefix_len
    assert forall|j: int| 0 <= j < 5 implies #[trigger] stream_bit(bytes, off + j) == nth_bit(
        v,
        j as nat,
    ) by {
        assert(chunk_ok(bytes, s, k));
        assert(stream_bit(bytes, form_offset(s, k) + j) == nth_bit(form_value(s[k]), j as nat));
    }
    lemma_bits_value_of_bits(bytes, off, 5, v);
    assert(v % 32 == f.prefix_len as nat % 32) by {
        lemma_mod_multiples_vanish(rest as int, f.prefix_len as int, 32);
    }
    lemma_small_mod(f.prefix_len as nat, 32);
    // the next five bits hold bit_count
    assert forall|j: int| 0 <= j < 5 implies #[trigger] stream_bit(bytes, (off + 5) + j)
        == nth_bit(v / 32, j as nat) by {
        assert(stream_bit(bytes, form_offset(s, k) + (5 + j)) == nth_bit(
            form_value(s[k]),
            (5 + j) as nat,
        ));
        lemma_div_pow2_adds(v, 5, j as nat);
        lemma_pow2_adds(5, j as nat);
        assert(nth_bit(v, (5 + j) as nat) == nth_bit(v / 32, j as nat));
    }
    lemma_bits_value_of_bits(bytes, off + 5, 5, v / 32);
    assert(v / 32 == rest) by {
        lemma_div_multiples_vanish_fancy(rest as int, f.prefix_len as int, 32);
    }
    let high: nat = if f.prefix_len > 0 {
        f.prefix as nat
    } else {
        0
    };
    assert(rest == 32 * high + f.bit_count);
    assert(rest % 32 == f.bit_count as nat % 32) by {
        lemma_mod_multiples_vanish(high as int, f.bit_count as int, 32);
    }
    lemma_small_mod(f.bit_count as nat, 32);
    // the remaining prefix_len bits hold the prefix
    if f.prefix_len > 0 {
        assert forall|j: int| 0 <= j < pl implies #[trigger] stream_bit(bytes, (off + 10) + j)
            == nth_bit(v / 1024, j as nat) by {
            assert(stream_bit(bytes, form_offset(s, k) + (10 + j)) == nth_bit(
                form_value(s[k]),
                (10 + j) as nat,
            ));
            lemma_div_pow2_adds(v, 10, j as nat);
            lemma_pow2_adds(10, j as nat);
            assert(nth_bit(v, (10 + j) as nat) == nth_bit(v / 1024, j as nat));
        }
        lemma_bits_value_of_bits(bytes, off + 10, pl, v / 1024);
        let low: nat = (f.prefix_len + 32 * f.bit_count) as nat;
        assert(v == 1024 * f.prefix + low);
        assert(v / 1024 == f.prefix as nat) by {
            lemma_div_multiples_vanish_fancy(f.prefix as int, low as int, 1024);
        }
        lemma_small_mod(f.prefix as nat, pow2(pl));
    }
}

/// Stores an encoding scheme into a byte vector, packing the forms' bit
/// groups one after the other.
///
/// The per-field range checks mirror the wire format's field widths and are
/// deliberately narrower than the validator: a syntactically bounded but not
/// yet semantically valid scheme can still be packed. The returned buffer is
/// pinned down completely by [`encodes`]: its length, every field of every
/// form, and zero padding in the unused high bits of the last byte.
#[verifier::loop_isolation(false)]
#[verifier::rlimit(100)]
pub fn serialize_forms(encforms: &Vec<EncodingSchemeForm>) -> (res: Result<
    Vec<u8>,
    EncodingSchemeError,
>)
    requires
        41 * encforms@.len() <= usize::MAX,
        forms_fit(encforms@),
    ensures
        res is Ok <==> forall|k: int|
            0 <= k < encforms@.len() ==> form_ranges_ok(#[trigger] encforms@[k]),
        res matches Ok(bytes) ==> encodes(bytes@, encforms@),
        res matches Err(e) ==> e == EncodingSchemeError::BadEncodingForm,
{
    let n: usize = encforms.len();
    let mut result_vec: Vec<u8> = Vec::new();
    let mut pos: usize = 0;
    let mut k: usize = 0;
    proof {
        assert(encforms@.take(0) =~= Seq::<EncodingSchemeForm>::empty());
    }
    while k < n
        invariant
            0 <= k <= n,
            pos == total_width(encforms@.take(k as int)),
            pos <= 41 * k,
            forall|j: int| 0 <= j < k ==> form_ranges_ok(#[trigger] encforms@[j]),
            result_vec@.len() == (pos + 7) / 8,
            pos % 8 != 0 ==> (result_vec@[pos as int / 8] as nat) < pow2((pos % 8) as nat),
            pos % 8 == 0 ==> 8 * result_vec@.len() == pos,
            forall|j: int| 0 <= j < k ==> chunk_ok(result_vec@, encforms@, j),
        decreases n - k,
    {
        let f = encforms[k];
        if f.prefix_len > 31 {
            return Err(EncodingSchemeError::BadEncodingForm);
        }
        if f.bit_count < 1 || f.bit_count > 31 {
            return Err(EncodingSchemeError::BadEncodingForm);
        }
        // lay the fields out in one accumulator, prefix on top
        let mut acc: u64 = 0;
        if f.prefix_len > 0 {
            acc = f.prefix as u64;
        }
        acc = acc * 32 + f.bit_count as u64;
        acc = acc * 32 + f.prefix_len as u64;
        let w: usize = 10 + f.prefix_len as usize;
        let ghost v: nat = form_value(f);
        proof {
            lemma2_to64();
            assert(acc as nat == v);
            if f.prefix_len > 0 {
                lemma_pow2_adds(10, f.prefix_len as nat);
                assert(1024 * f.prefix < 1024 * pow2(f.prefix_len as nat));
                assert(v < pow2(w as nat));
            } else {
                assert(v < pow2(10));
            }
            lemma_div_basics(v as int);
            assert(acc as nat == v / pow2(0));
        }
        let ghost p0: int = pos as int;
        let ghost buf0: Seq<u8> = result_vec@;
        let mut it: usize = 0;
        while it < w
            invariant
                0 <= it <= w,
                pos == p0 + it,
                acc as nat == v / pow2(it as nat),
                result_vec@.len() == (pos + 7) / 8,
                pos % 8 != 0 ==> (result_vec@[pos as int / 8] as nat) < pow2((pos % 8) as nat),
                pos % 8 == 0 ==> 8 * result_vec@.len() == pos,
                forall|p: int|
                    0 <= p < p0 ==> #[trigger] stream_bit(result_vec@, p) == stream_bit(buf0, p),
                forall|b: int|
                    0 <= b < it ==> #[trigger] stream_bit(result_vec@, p0 + b) == nth_bit(
                        v,
                        b as nat,
                    ),
            decreases w - it,
        {
            let ghost prev: Seq<u8> = result_vec@;
            if pos % 8 == 0 {
                result_vec.push(0);
                proof {
                    assert forall|p: int|
                        0 <= p < pos implies #[trigger] stream_bit(result_vec@, p) == stream_bit(
                        prev,
                        p,
                    ) by {
                        lemma_multiply_divide_lt(p, 8, prev.len() as int);
                    }
                    lemma_ceil_div8(pos as int);
                }
            }
            let i: usize = pos / 8;
            let j: usize = pos % 8;
            proof {
                lemma_ceil_div8(pos as int);
                assert(result_vec@.len() == pos / 8 + 1);
                if j == 0 {
                    lemma2_to64();
                    assert(result_vec@[i as int] == 0u8);
                }
            }
            let b_old: u8 = result_vec[i];
            let bit_is_one: bool = acc % 2 == 1;
            let ghost mid: Seq<u8> = result_vec@;
            if bit_is_one {
                let m: u8 = pow2_u8(j);
                proof {
                    lemma_add_high_bit(b_old as nat, j as nat);
                }
                result_vec[i] = b_old + m;
                proof {
                    assert(result_vec@ == mid.update(i as int, (b_old + m) as u8));
                    assert(((b_old + m) as u8) as nat == b_old as nat + pow2(j as nat));
                }
            }
            proof {
                let jn = j as nat;
                lemma_add_high_bit(b_old as nat, jn);
                // the freshly written (or already clear) bit equals the
                // accumulator's lowest bit, which is bit `it` of `v`
                assert(nth_bit(v, it as nat) == (v / pow2(it as nat) % 2 == 1));
                lemma_stream_bit_index(pos as int, i as int, j as int);
                if bit_is_one {
                    assert(stream_bit(result_vec@, pos as int) == nth_bit(v, it as nat));
                } else {
                    lemma_low_value_high_bits(b_old as nat, jn);
                    assert(stream_bit(result_vec@, pos as int) == nth_bit(v, it as nat));
                }
                // bits below the write position keep their values
                assert forall|p: int|
                    0 <= p < pos implies #[trigger] stream_bit(result_vec@, p) == stream_bit(
                    mid,
                    p,
                ) by {
                    if p / 8 == i as int {
                        assert(p % 8 < jn);
                    }
                }
                // the write fills bit `j` of the last byte, so the byte stays
                // below the bound for the next position
                lemma_div_pow2_adds(v, it as nat, 1);
                lemma2_to64();
            }
            acc = acc / 2;
            pos = pos + 1;
            it = it + 1;
            proof {
                lemma_ceil_div8(pos as int);
                lemma_ceil_div8(pos as int - 1);
                if pos % 8 != 0 {
                    assert(pos as int / 8 == (pos - 1) as int / 8);
                    assert((result_vec@[pos as int / 8] as nat) < pow2((pos % 8) as nat));
                }
            }
        }
        proof {
            // the accumulator is fully consumed
            lemma_basic_div(v as int, pow2(w as nat) as int);
            assert(acc == 0);
            // the previous forms' groups sit below this one and kept their bits
            assert forall|j2: int| 0 <= j2 < k + 1 implies chunk_ok(result_vec@, encforms@, j2) by {
                if j2 < k {
                    assert(chunk_ok(buf0, encforms@, j2));
                    lemma_offset_le_total(encforms@.take(k as int), j2 + 1);
                    assert(encforms@.take(k as int).take(j2 + 1) =~= encforms@.take(j2 + 1));
                    assert(encforms@.take(k as int).take(j2) =~= encforms@.take(j2));
                    lemma_total_width_take_succ(encforms@, j2);
                    assert forall|b: int|
                        0 <= b < form_width(encforms@[j2]) implies #[trigger] stream_bit(
                        result_vec@,
                        form_offset(encforms@, j2) + b,
                    ) == nth_bit(form_value(encforms@[j2]), b as nat) by {
                        assert(form_offset(encforms@, j2) + b < p0);
                        assert(stream_bit(buf0, form_offset(encforms@, j2) + b) == nth_bit(
                            form_value(encforms@[j2]),
                            b as nat,
                        ));
                    }
                } else {
                    assert forall|b: int|
                        0 <= b < form_width(encforms@[j2]) implies #[trigger] stream_bit(
                        result_vec@,
                        form_offset(encforms@, j2) + b,
                    ) == nth_bit(form_value(encforms@[j2]), b as nat) by {
                        assert(stream_bit(result_vec@, p0 + b) == nth_bit(v, b as nat));
                    }
                }
            }
            lemma_total_width_take_succ(encforms@, k as int);
        }
        k = k + 1;
    }
    proof {
        assert(encforms@.take(n as int) =~= encforms@);
        let wtot = total_width(encforms@) as int;
        lemma_padding_zero(result_vec@, wtot);
        assert forall|k2: int| 0 <= k2 < encforms@.len() implies #[trigger] form_encoded_at(
            result_vec@,
            encforms@,
            k2,
        ) by {
            lemma_chunk_fields(result_vec@, encforms@, k2);
        }
    }
    Ok(result_vec)
}

/// What [`deserialize_forms`] reconstructs from the stream, starting `u` bits
/// in: one form per step, walking forward while at least ten bits remain;
/// `None` when a form announces a prefix wider than what is left.
pub open spec fn decode_rest(bytes: Seq<u8>, u: int) -> Option<Seq<EncodingSchemeForm>>
    decreases 8 * bytes.len() - u,
{
    let total = 8 * bytes.len();
    let pl = bits_value(bytes, u, 5);
    let bc = bits_value(bytes, u + 5, 5);
    if u + 10 + pl > total {
        None
    } else {
        let f = EncodingSchemeForm {
            bit_count: bc as u8,
            prefix_len: pl as u8,
            prefix: bits_value(bytes, u + 10, pl) as u32,
        };
        let u2 = u + 10 + pl;
        if total - u2 < 10 {
            Some(seq![f])
        } else {
            match decode_rest(bytes, u2) {
                Some(rest) => Some(seq![f] + rest),
                None => None,
            }
        }
    }
}

/// Parses a byte vector back into the list of forms it encodes.
///
/// Performs no semantic validation: corrupted or adversarial bytes can decode
/// into a list that the validator rejects, and the caller must re-validate.
/// Fails only when the buffer cannot hold even the minimal ten-bit group
/// (fewer than two bytes), or when a decoded `prefix_len` asks for more bits
/// than the buffer still has.
#[verifier::loop_isolation(false)]
pub fn deserialize_forms(form_bytes: &Vec<u8>) -> (res: Result<
    Vec<EncodingSchemeForm>,
    EncodingSchemeError,
>)
    requires
        8 * form_bytes@.len() <= usize::MAX,
    ensures
        match res {
            Ok(forms) => form_bytes@.len() >= 2 && decode_rest(form_bytes@, 0) == Some(forms@),
            Err(e) => e == EncodingSchemeError::BadSerializedData && (form_bytes@.len() < 2
                || decode_rest(form_bytes@, 0) is None),
        },
{
    if form_bytes.len() < 2 {
        return Err(EncodingSchemeError::BadSerializedData);
    }
    let total: usize = form_bytes.len() * 8;
    let mut result: Vec<EncodingSchemeForm> = Vec::new();
    let mut cur: usize = total;
    proof {
        match decode_rest(form_bytes@, 0) {
            Some(r) => {
                assert(result@ + r =~= r);
            },
            None => {},
        }
    }
    while cur >= 10
        invariant
            cur <= total,
            cur >= 10 ==> decode_rest(form_bytes@, 0) == (match decode_rest(
                form_bytes@,
                total - cur,
            ) {
                Some(r) => Some(result@ + r),
                None => None::<Seq<EncodingSchemeForm>>,
            }),
            cur < 10 ==> decode_rest(form_bytes@, 0) == Some(result@),
        decreases cur,
    {
        let ghost u: int = total - cur;
        let ghost old_result: Seq<EncodingSchemeForm> = result@;
        cur = cur - 5;
        let prefix_len: u32 = read_bits(form_bytes, cur, 5);
        cur = cur - 5;
        let bit_count: u32 = read_bits(form_bytes, cur, 5);
        proof {
            lemma_bits_value_bound(form_bytes@, u, 5);
            lemma_bits_value_bound(form_bytes@, u + 5, 5);
            lemma2_to64();
        }
        if prefix_len as usize > cur {
            proof {
                assert(decode_rest(form_bytes@, u) is None);
            }
            return Err(EncodingSchemeError::BadSerializedData);
        }
        cur = cur - prefix_len as usize;
        // reading zero bits from any position yields zero, which covers the
        // no-prefix case
        let prefix: u32 = read_bits(form_bytes, cur, prefix_len as u8);
        let form = EncodingSchemeForm {
            bit_count: bit_count as u8,
            prefix_len: prefix_len as u8,
            prefix,
        };
        result.push(form);
        proof {
            lemma_bits_value_bound(form_bytes@, u + 10, prefix_len as nat);
            if (prefix_len as nat) < 32 {
                lemma_pow2_strictly_increases(prefix_len as nat, 32);
            }
            let spec_form = EncodingSchemeForm {
                bit_count: bits_value(form_bytes@, u + 5, 5) as u8,
                prefix_len: bits_value(form_bytes@, u, 5) as u8,
                prefix: bits_value(form_bytes@, u + 10, bits_value(form_bytes@, u, 5)) as u32,
            };
            assert(form == spec_form);
            assert(result@ =~= old_result + seq![form]);
            let u2: int = total - cur;
            assert(u2 == u + 10 + bits_value(form_bytes@, u, 5));
            if cur >= 10 {
                match decode_rest(form_bytes@, u2) {
                    Some(rest) => {
                        assert(decode_rest(form_bytes@, u) == Some(seq![form] + rest));
                        assert(old_result + (seq![form] + rest) =~= result@ + rest);
                    },
                    None => {
                        assert(decode_rest(form_bytes@, u) is None);
                    },
                }
            } else {
                assert(decode_rest(form_bytes@, u) == Some(seq![form]));
                assert(old_result + seq![form] =~= result@);
            }
        }
    }
    Ok(result)
}

/// Decoding restarted at form `k`'s offset recovers exactly the forms from
/// `k` on.
proof fn lemma_decode_suffix(bytes: Seq<u8>, s: Seq<EncodingSchemeForm>, k: int)
    requires
        0 <= k < s.len(),
        bytes.len() == (total_width(s) + 7) / 8,
        forall|k2: int| 0 <= k2 < s.len() ==> #[trigger] form_encoded_at(bytes, s, k2),
        forall|k2: int|
            0 <= k2 < s.len() ==> ((#[trigger] s[k2]).prefix_len == 0 ==> s[k2].prefix == 0),
    ensures
        decode_rest(bytes, form_offset(s, k) as int) == Some(s.skip(k)),
    decreases s.len() - k,
{
    let u = form_offset(s, k) as int;
    let f = s[k];
    let total = 8 * bytes.len() as int;
    let wtot = total_width(s) as int;
    lemma_total_width_take_succ(s, k);
    lemma_offset_le_total(s, k + 1);
    lemma_ceil_div8(wtot);
    assert(wtot <= total <= wtot + 7);
    assert(form_encoded_at(bytes, s, k));
    let pl = bits_value(bytes, u, 5);
    assert(pl == f.prefix_len);
    assert(u + 10 + pl == form_offset(s, k + 1));
    assert(u + 10 + pl <= total);
    let dec = EncodingSchemeForm {
        bit_count: bits_value(bytes, u + 5, 5) as u8,
        prefix_len: pl as u8,
        prefix: bits_value(bytes, u + 10, pl) as u32,
    };
    assert(dec == f);
    let u2 = u + 10 + pl;
    if k + 1 == s.len() {
        assert(u2 == wtot);
        assert(total - u2 < 10);
        assert(decode_rest(bytes, u) == Some(seq![f]));
        assert(seq![f] =~= s.skip(k));
    } else {
        lemma_total_width_take_succ(s, k + 1);
        lemma_offset_le_total(s, k + 2);
        assert(form_offset(s, k + 1) + form_width(s[k + 1]) <= wtot);
        assert(total - u2 >= 10);
        lemma_decode_suffix(bytes, s, k + 1);
        assert(decode_rest(bytes, u) == Some(seq![f] + s.skip(k + 1)));
        assert(seq![f] + s.skip(k + 1) =~= s.skip(k));
    }
}

/// Round trip: a buffer that encodes a valid scheme whose prefixes fit their
/// announced widths decodes back to exactly that scheme. Together with the
/// contract of [`serialize_forms`], whose output always satisfies `encodes`,
/// and that of [`deserialize_forms`], this pins the full round trip
/// `deserialize(serialize(forms)) == forms` for every validated scheme.
pub proof fn lemma_round_trip(s: Seq<EncodingSchemeForm>, bytes: Seq<u8>)
    requires
        is_valid_scheme(s),
        forms_fit(s),
        encodes(bytes, s),
    ensures
        bytes.len() >= 2,
        decode_rest(bytes, 0) == Some(s),
{
    assert forall|k2: int|
        0 <= k2 < s.len() && (#[trigger] s[k2]).prefix_len == 0 implies s[k2].prefix == 0 by {
        if s.len() >= 2 {
            assert(multi_form_ok_at(s, k2));
        }
    }
    assert(s.take(0) =~= Seq::<EncodingSchemeForm>::empty());
    lemma_total_width_take_succ(s, 0);
    lemma_offset_le_total(s, 1);
    assert(total_width(s) >= 10);
    lemma_ceil_div8(total_width(s) as int);
    assert(bytes.len() >= 2);
    lemma_decode_suffix(bytes, s, 0);
    assert(s.skip(0) =~= s);
}

/// The scheme whose `i`-th form (counting from zero) is
/// `{ bit_count: i + 1, prefix_len: i + 1, prefix: pow2(i) }`: each form one
/// bit wider than the one before, every prefix a distinct power of two.
pub open spec fn sequential_forms(n: int) -> Seq<EncodingSchemeForm> {
    Seq::new(
        n as nat,
        |i: int| EncodingSchemeForm {
            bit_count: (i + 1) as u8,
            prefix_len: (i + 1) as u8,
            prefix: pow2(i as nat) as u32,
        },
    )
}

/// Boundary stress: for every length from two up to twenty-nine, the
/// sequential family is a valid scheme and its prefixes fit, so by
/// [`lemma_round_trip`] it survives the wire round trip. (With a single
/// form the family is no valid scheme: its prefix is not empty.)
pub proof fn lemma_sequential_forms_valid(n: int)
    requires
        2 <= n <= 29,
    ensures
        is_valid_scheme(sequential_forms(n)),
        forms_fit(sequential_forms(n)),
{
    let s = sequential_forms(n);
    lemma2_to64();
    assert forall|i: int| 0 <= i < n implies multi_form_ok_at(s, i) by {
        lemma_pow2_strictly_increases(i as nat, 32);
        assert(s[i].prefix == pow2(i as nat));
        assert forall|j: int| 0 <= j < i implies (#[trigger] s[j]).prefix != s[i].prefix by {
            lemma_pow2_strictly_increases(j as nat, i as nat);
            lemma_pow2_strictly_increases(j as nat, 32);
        }
    }
    assert forall|i: int| 0 <= i < n implies form_prefix_fits(#[trigger] s[i]) by {
        lemma_pow2_strictly_increases(i as nat, 32);
        lemma_pow2_strictly_increases(i as nat, (i + 1) as nat);
    }
}

/// The sequential family's wire round trip, in one statement.
pub proof fn lemma_sequential_forms_round_trip(n: int, bytes: Seq<u8>)
    requires
        2 <= n <= 29,
        encodes(bytes, sequential_forms(n)),
    ensures
        decode_rest(bytes, 0) == Some(sequential_forms(n)),
{
    lemma_sequential_forms_valid(n);
    lemma_round_trip(sequential_forms(n), bytes);
}

} // verus!
