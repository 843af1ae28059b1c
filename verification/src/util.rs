//! The variable-length integer codec and the serial-type table.
//!
//! A varint is 1 to 9 bytes.  In bytes 0 through 7 the high bit is a
//! continuation flag and the low 7 bits contribute to the value, high groups
//! first; byte 8, when reached, contributes all 8 of its bits.  The composed
//! 64-bit quantity is interpreted as a signed two's-complement integer.

use crate::error::Error;
use crate::page::ColumnType;
use vstd::arithmetic::div_mod::{
    lemma_fundamental_div_mod, lemma_multiply_divide_lt, lemma_remainder_lower,
    lemma_remainder_upper,
};
use vstd::prelude::*;

verus! {

/// 128^k: how many values a string of k base-128 digits can hold.
pub open spec fn pow128(k: int) -> int
    decreases k,
{
    if k <= 0 {
        1
    } else {
        128 * pow128(k - 1)
    }
}

pub proof fn lemma_pow128_pos(k: int)
    ensures
        pow128(k) >= 1,
    decreases k,
{
    if k > 0 {
        lemma_pow128_pos(k - 1);
    }
}

pub proof fn lemma_pow128_mono(i: int, j: int)
    requires
        i <= j,
    ensures
        pow128(i) <= pow128(j),
    decreases j - i,
{
    if i < j {
        lemma_pow128_mono(i, j - 1);
        lemma_pow128_pos(j - 1);
    }
}

/// How many bytes a varint starting at index `i` of `bytes` consumes,
/// counted from the start of `bytes`: the index just past the first byte
/// with a clear high bit, capped by the 9-byte limit and the end of `bytes`.
pub open spec fn spec_varint_len_from(bytes: Seq<u8>, i: int) -> int
    decreases 9 - i,
{
    if i >= bytes.len() || i >= 9 {
        i
    } else if i == 8 {
        9
    } else if bytes[i] < 128 {
        i + 1
    } else {
        spec_varint_len_from(bytes, i + 1)
    }
}

/// The number of bytes the varint at the start of `bytes` consumes.
pub open spec fn spec_varint_len(bytes: Seq<u8>) -> int {
    spec_varint_len_from(bytes, 0)
}

pub proof fn lemma_varint_len_from_bounds(bytes: Seq<u8>, i: int)
    requires
        0 <= i <= 9,
    ensures
        i <= spec_varint_len_from(bytes, i) <= 9,
        i < bytes.len() && i < 9 ==> spec_varint_len_from(bytes, i) >= i + 1,
    decreases 9 - i,
{
    if i < bytes.len() && i < 9 && i != 8 && bytes[i] >= 128 {
        lemma_varint_len_from_bounds(bytes, i + 1);
    }
}

/// The unsigned 64-bit accumulation of the varint's digit groups, continuing
/// from index `i` with the bits gathered so far in `acc`.
pub open spec fn spec_varint_raw_from(bytes: Seq<u8>, i: int, acc: int) -> int
    decreases 9 - i,
{
    if i >= bytes.len() || i >= 9 {
        acc
    } else if i == 8 {
        acc * 256 + bytes[8]
    } else {
        let acc2 = acc * 128 + (bytes[i] % 128);
        if bytes[i] < 128 {
            acc2
        } else {
            spec_varint_raw_from(bytes, i + 1, acc2)
        }
    }
}

/// The unsigned 64-bit accumulation of the varint at the start of `bytes`.
pub open spec fn spec_varint_raw(bytes: Seq<u8>) -> int {
    spec_varint_raw_from(bytes, 0, 0)
}

/// A 64-bit quantity reinterpreted as signed two's complement.
pub open spec fn spec_i64_of_raw(raw: int) -> int {
    if raw >= 0x8000000000000000 {
        raw - 0x10000000000000000
    } else {
        raw
    }
}

/// The signed value of the varint at the start of `bytes`.
pub open spec fn spec_varint_value(bytes: Seq<u8>) -> int {
    spec_i64_of_raw(spec_varint_raw(bytes))
}

fn read_varint_from(bytes: &[u8], i: usize, acc: u64) -> (r: (u64, usize))
    requires
        bytes@.len() <= 9,
        i <= bytes@.len(),
        acc < pow128(i as int),
    ensures
        r.0 as int == spec_varint_raw_from(bytes@, i as int, acc as int),
        r.1 as int == spec_varint_len_from(bytes@, i as int),
        i <= r.1 <= bytes@.len(),
        i < bytes@.len() && i < 9 ==> r.1 > i,
    decreases 9 - i,
{
    proof {
        assert(pow128(8) == 0x100000000000000) by {
            reveal_with_fuel(pow128, 9);
        }
    }
    if i >= bytes.len() || i >= 9 {
        (acc, i)
    } else if i == 8 {
        let b = bytes[i];
        (acc * 256 + b as u64, 9)
    } else {
        let b = bytes[i];
        proof {
            lemma_pow128_mono(i as int + 1, 8);
        }
        let acc2 = acc * 128 + (b % 128) as u64;
        if b < 128 {
            (acc2, i + 1)
        } else {
            read_varint_from(bytes, i + 1, acc2)
        }
    }
}

/// Decode the varint at the start of `bytes`, returning its signed value and
/// the number of bytes consumed.  Total on any input of at most 9 bytes.
pub fn read_varint(bytes: &[u8]) -> (r: (i64, u8))
    requires
        bytes@.len() <= 9,
    ensures
        r.0 as int == spec_varint_value(bytes@),
        r.1 as int == spec_varint_len(bytes@),
        r.1 <= bytes@.len(),
        bytes@.len() > 0 ==> r.1 >= 1,
{
    proof {
        assert(pow128(0) == 1);
    }
    let (raw, n) = read_varint_from(bytes, 0, 0);
    let v: i64 = if raw >= 0x8000000000000000 {
        let t = (raw - 0x8000000000000000) as i64;
        (t - 0x7FFFFFFFFFFFFFFF) - 1
    } else {
        raw as i64
    };
    (v, n as u8)
}

/// The minimal number of bytes that encode the non-negative value `v`:
/// the least k with v < 128^k, except that values needing more than 8
/// digit groups use the full 9-byte form.
pub open spec fn spec_varint_min_len(v: int) -> int {
    if v < pow128(1) {
        1
    } else if v < pow128(2) {
        2
    } else if v < pow128(3) {
        3
    } else if v < pow128(4) {
        4
    } else if v < pow128(5) {
        5
    } else if v < pow128(6) {
        6
    } else if v < pow128(7) {
        7
    } else if v < pow128(8) {
        8
    } else {
        9
    }
}

/// k bytes holding the base-128 digits of `v`, high digit first, with the
/// continuation bit set on every byte but the last.
pub open spec fn spec_enc_digits(v: int, k: int) -> Seq<u8>
    decreases k,
{
    if k <= 1 {
        seq![(v % 128) as u8]
    } else {
        seq![(128 + (v / pow128(k - 1)) % 128) as u8] + spec_enc_digits(v % pow128(k - 1), k - 1)
    }
}

/// k bytes holding the base-128 digits of `v`, high digit first, with the
/// continuation bit set on every byte including the last.
pub open spec fn spec_enc_digits_cont(v: int, k: int) -> Seq<u8>
    decreases k,
{
    if k <= 0 {
        Seq::empty()
    } else {
        seq![(128 + (v / pow128(k - 1)) % 128) as u8] + spec_enc_digits_cont(
            v % pow128(k - 1),
            k - 1,
        )
    }
}

/// The minimal encoding of a non-negative value: up to 8 digit-group bytes,
/// or, for values of 57 bits and more, 8 all-continuation bytes over the
/// high 56 bits followed by one byte holding the low 8 bits.
pub open spec fn spec_encode_varint(v: int) -> Seq<u8> {
    if v < pow128(8) {
        spec_enc_digits(v, spec_varint_min_len(v))
    } else {
        spec_enc_digits_cont(v / 256, 8) + seq![(v % 256) as u8]
    }
}

proof fn lemma_enc_digits_len(v: int, k: int)
    ensures
        k >= 1 ==> spec_enc_digits(v, k).len() == k,
        k >= 0 ==> spec_enc_digits_cont(v, k).len() == k,
    decreases k,
{
    if k > 1 {
        lemma_enc_digits_len(v % pow128(k - 1), k - 1);
    } else if k == 1 {
        lemma_enc_digits_len(v % pow128(0), 0);
    }
}

proof fn lemma_decode_digits(s: Seq<u8>, i: int, acc: int, v: int, k: int)
    requires
        1 <= k,
        0 <= i,
        i + k == s.len(),
        s.len() <= 8,
        0 <= v < pow128(k),
        forall|j: int| 0 <= j < k ==> s[i + j] == spec_enc_digits(v, k)[j],
    ensures
        spec_varint_raw_from(s, i, acc) == acc * pow128(k) + v,
        spec_varint_len_from(s, i) == i + k,
    decreases k,
{
    lemma_enc_digits_len(v, k);
    if k == 1 {
        assert(s[i + 0] == spec_enc_digits(v, k)[0]);
        assert(s[i] == (v % 128) as u8);
        assert(v % 128 == v) by (nonlinear_arith)
            requires
                0 <= v < 128,
        ;
        assert(spec_varint_raw_from(s, i, acc) == acc * 128 + v);
        assert(acc * pow128(1) == acc * 128);
    } else {
        let p = pow128(k - 1);
        lemma_pow128_pos(k - 1);
        let d = v / p;
        let rest = v % p;
        lemma_multiply_divide_lt(v, p, 128);
        lemma_fundamental_div_mod(v, p);
        assert(0 <= rest < p) by {
            lemma_remainder_upper(v, p);
            lemma_remainder_lower(v, p);
        }
        assert(d % 128 == d) by (nonlinear_arith)
            requires
                0 <= d < 128,
        ;
        assert(s[i + 0] == spec_enc_digits(v, k)[0]);
        assert(s[i] == (128 + d) as u8);
        let acc2 = acc * 128 + d;
        assert forall|j: int| 0 <= j < k - 1 implies s[i + 1 + j] == #[trigger] spec_enc_digits(
            rest,
            k - 1,
        )[j] by {
            assert(s[i + (j + 1)] == spec_enc_digits(v, k)[j + 1]);
        }
        lemma_decode_digits(s, i + 1, acc2, rest, k - 1);
        assert(spec_varint_raw_from(s, i, acc) == spec_varint_raw_from(s, i + 1, acc2));
        assert(acc2 * p + rest == acc * pow128(k) + v) by (nonlinear_arith)
            requires
                acc2 == acc * 128 + d,
                v == p * d + rest,
                pow128(k) == 128 * p,
        ;
    }
}

proof fn lemma_decode_digits_cont(s: Seq<u8>, i: int, acc: int, v: int, k: int)
    requires
        0 <= k,
        0 <= i,
        i + k == 8,
        s.len() == 9,
        0 <= v < pow128(k),
        forall|j: int| 0 <= j < k ==> s[i + j] == spec_enc_digits_cont(v, k)[j],
    ensures
        spec_varint_raw_from(s, i, acc) == (acc * pow128(k) + v) * 256 + s[8],
        spec_varint_len_from(s, i) == 9,
    decreases k,
{
    lemma_enc_digits_len(v, k);
    if k == 0 {
        assert(spec_varint_raw_from(s, 8, acc) == acc * 256 + s[8]);
    } else {
        let p = pow128(k - 1);
        lemma_pow128_pos(k - 1);
        let d = v / p;
        let rest = v % p;
        lemma_multiply_divide_lt(v, p, 128);
        lemma_fundamental_div_mod(v, p);
        assert(0 <= rest < p) by {
            lemma_remainder_upper(v, p);
            lemma_remainder_lower(v, p);
        }
        assert(d % 128 == d) by (nonlinear_arith)
            requires
                0 <= d < 128,
        ;
        assert(s[i + 0] == spec_enc_digits_cont(v, k)[0]);
        assert(s[i] == (128 + d) as u8);
        let acc2 = acc * 128 + d;
        assert forall|j: int| 0 <= j < k - 1 implies s[i + 1 + j] == #[trigger] spec_enc_digits_cont(
            rest,
            k - 1,
        )[j] by {
            assert(s[i + (j + 1)] == spec_enc_digits_cont(v, k)[j + 1]);
        }
        lemma_decode_digits_cont(s, i + 1, acc2, rest, k - 1);
        assert(acc2 * p + rest == acc * pow128(k) + v) by (nonlinear_arith)
            requires
                acc2 == acc * 128 + d,
                v == p * d + rest,
                pow128(k) == 128 * p,
        ;
    }
}

/// Varint round-trip: every non-negative value representable in at most 63
/// bits decodes from its minimal encoding back to itself, consuming exactly
/// the encoded length, which is the minimal length and between 1 and 9 bytes.
pub proof fn lemma_varint_round_trip(v: int)
    requires
        0 <= v < 0x8000000000000000,
    ensures
        spec_encode_varint(v).len() == spec_varint_min_len(v),
        1 <= spec_encode_varint(v).len() <= 9,
        spec_varint_len(spec_encode_varint(v)) == spec_encode_varint(v).len(),
        spec_varint_value(spec_encode_varint(v)) == v,
{
    assert(pow128(8) == 0x100000000000000) by {
        reveal_with_fuel(pow128, 9);
    }
    let e = spec_encode_varint(v);
    if v < pow128(8) {
        let k = spec_varint_min_len(v);
        lemma_enc_digits_len(v, k);
        assert(0 <= v < pow128(k));
        lemma_decode_digits(e, 0, 0, v, k);
        lemma_pow128_mono(k, 8);
    } else {
        let top = v / 256;
        let low = v % 256;
        lemma_fundamental_div_mod(v, 256);
        assert(0 <= low < 256) by {
            lemma_remainder_upper(v, 256);
            lemma_remainder_lower(v, 256);
        }
        assert(top < pow128(8)) by {
            lemma_multiply_divide_lt(v, 256, pow128(8));
        }
        lemma_enc_digits_len(top, 8);
        assert(e.len() == 9);
        assert(forall|j: int| 0 <= j < 8 ==> e[j] == spec_enc_digits_cont(top, 8)[j]);
        assert(e[8] == (low) as u8);
        lemma_decode_digits_cont(e, 0, 0, top, 8);
        assert(spec_varint_raw(e) == top * 256 + low);
        assert(spec_varint_min_len(v) == 9) by {
            reveal_with_fuel(pow128, 9);
        }
    }
}

/// Boundary form: a varint whose first eight bytes all carry the
/// continuation bit consumes exactly nine bytes.
pub proof fn lemma_nine_continuation_bytes(bytes: Seq<u8>)
    requires
        bytes.len() == 9,
        forall|i: int| 0 <= i < 8 ==> bytes[i] >= 128,
    ensures
        spec_varint_len(bytes) == 9,
{
    lemma_len_from_all_cont(bytes, 0);
}

proof fn lemma_len_from_all_cont(bytes: Seq<u8>, i: int)
    requires
        bytes.len() == 9,
        0 <= i <= 8,
        forall|j: int| i <= j < 8 ==> bytes[j] >= 128,
    ensures
        spec_varint_len_from(bytes, i) == 9,
    decreases 9 - i,
{
    if i < 8 {
        lemma_len_from_all_cont(bytes, i + 1);
    }
}

fn pow128_exec(k: usize) -> (r: u64)
    requires
        k <= 8,
    ensures
        r as int == pow128(k as int),
{
    proof {
        reveal_with_fuel(pow128, 9);
    }
    match k {
        0 => 1,
        1 => 0x80,
        2 => 0x4000,
        3 => 0x200000,
        4 => 0x10000000,
        5 => 0x800000000,
        6 => 0x40000000000,
        7 => 0x2000000000000,
        _ => 0x100000000000000,
    }
}

fn enc_digits_exec(v: u64, k: usize, cont: bool) -> (r: Vec<u8>)
    requires
        1 <= k <= 8,
        v < pow128(k as int),
    ensures
        cont ==> r@ == spec_enc_digits_cont(v as int, k as int),
        !cont ==> r@ == spec_enc_digits(v as int, k as int),
    decreases k,
{
    proof {
        lemma_enc_digits_len(v as int, k as int);
    }
    if k == 1 {
        proof {
            assert(pow128(1) == 128) by {
                reveal_with_fuel(pow128, 2);
            }
            assert(v as int % 128 == v as int) by (nonlinear_arith)
                requires
                    0 <= v < 128,
            ;
            assert(v as int / 1 == v as int);
        }
        let last: u8 = if cont {
            (v as u8) + 128
        } else {
            v as u8
        };
        let r = vec![last];
        proof {
            if cont {
                assert(r@ =~= spec_enc_digits_cont(v as int, 1));
            } else {
                assert(r@ =~= spec_enc_digits(v as int, 1));
            }
        }
        r
    } else {
        let p = pow128_exec(k - 1);
        proof {
            lemma_pow128_pos(k as int - 1);
            lemma_multiply_divide_lt(v as int, p as int, 128);
            assert(0 <= ((v as int) % (p as int)) < p as int) by {
                lemma_remainder_upper(v as int, p as int);
                lemma_remainder_lower(v as int, p as int);
            }
            assert(((v as int) / (p as int)) % 128 == (v as int) / (p as int)) by (nonlinear_arith)
                requires
                    0 <= ((v as int) / (p as int)) < 128,
            ;
        }
        let head: u8 = (128 + (v / p) as u8) as u8;
        let mut r: Vec<u8> = vec![head];
        let mut rest = enc_digits_exec(v % p, k - 1, cont);
        r.append(&mut rest);
        proof {
            if cont {
                assert(r@ =~= spec_enc_digits_cont(v as int, k as int));
            } else {
                assert(r@ =~= spec_enc_digits(v as int, k as int));
            }
        }
        r
    }
}

/// Encode a non-negative value as a minimal varint.
pub fn encode_varint(v: i64) -> (r: Vec<u8>)
    requires
        v >= 0,
    ensures
        r@ == spec_encode_varint(v as int),
{
    proof {
        assert(pow128(8) == 0x100000000000000) by {
            reveal_with_fuel(pow128, 9);
        }
    }
    let u: u64 = v as u64;
    if u < 0x100000000000000 {
        let k: usize = if u < 0x80 {
            1
        } else if u < 0x4000 {
            2
        } else if u < 0x200000 {
            3
        } else if u < 0x10000000 {
            4
        } else if u < 0x800000000 {
            5
        } else if u < 0x40000000000 {
            6
        } else if u < 0x2000000000000 {
            7
        } else {
            8
        };
        proof {
            reveal_with_fuel(pow128, 9);
            assert(k as int == spec_varint_min_len(u as int));
        }
        enc_digits_exec(u, k, false)
    } else {
        let top = u / 256;
        proof {
            lemma_multiply_divide_lt(u as int, 256, pow128(8));
        }
        let mut r = enc_digits_exec(top, 8, true);
        r.push((u % 256) as u8);
        proof {
            assert(r@ =~= spec_encode_varint(v as int));
        }
        r
    }
}

/// The body size and width class that a serial type selects: the small
/// integer widths 1..3, the Zero/One sentinels, NULL, and odd types of 13
/// and above for text of length (t - 13) / 2.
pub open spec fn spec_content_size_type(t: i64) -> Result<(u64, ColumnType), Error> {
    if t == 0 {
        Ok((0, ColumnType::Null))
    } else if t == 1 {
        Ok((1, ColumnType::I8))
    } else if t == 2 {
        Ok((2, ColumnType::I16))
    } else if t == 3 {
        Ok((3, ColumnType::I24))
    } else if t == 8 {
        Ok((0, ColumnType::Zero))
    } else if t == 9 {
        Ok((0, ColumnType::One))
    } else if t >= 13 && t % 2 == 1 {
        Ok((((t - 13) / 2) as u64, ColumnType::Str))
    } else {
        Err(Error::UnknownSerialType(t))
    }
}

/// The body size in bytes and the width class of the serial type `input`.
pub fn get_content_size_type(input: i64) -> (r: Result<(u64, ColumnType), Error>)
    ensures
        r == spec_content_size_type(input),
{
    if input == 0 {
        Ok((0, ColumnType::Null))
    } else if input == 1 {
        Ok((1, ColumnType::I8))
    } else if input == 2 {
        Ok((2, ColumnType::I16))
    } else if input == 3 {
        Ok((3, ColumnType::I24))
    } else if input == 8 {
        Ok((0, ColumnType::Zero))
    } else if input == 9 {
        Ok((0, ColumnType::One))
    } else if input >= 13 && input % 2 == 1 {
        Ok((((input - 13) / 2) as u64, ColumnType::Str))
    } else {
        Err(Error::UnknownSerialType(input))
    }
}

} // verus!
