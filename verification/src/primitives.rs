//! Decode primitives for block-scaled and quantised weights.
use crate::exact::{
    dyadic_times, lemma_shifted, lossless, negated_times, negation_multiplies, times_comm,
};
use crate::layout::lemma_complement;
use crate::scalar::{whole, Scalar};
use vstd::arithmetic::power2::{
    lemma2_to64, lemma_pow2_pos, lemma_pow2_strictly_increases, lemma_pow2_unfold, pow2,
};
use vstd::prelude::*;

verus! {

/// Twice the magnitude of a 4-bit E2M1 code: the codebook is
/// `{0, 0.5, 1, 1.5, 2, 3, 4, 6}`.
pub open spec fn e2m1_halves(code: u32) -> int {
    let m = code & 7;
    if m == 0 {
        0
    } else if m == 1 {
        1
    } else if m == 2 {
        2
    } else if m == 3 {
        3
    } else if m == 4 {
        4
    } else if m == 5 {
        6
    } else if m == 6 {
        8
    } else {
        12
    }
}

/// `mag`, negated where the sign bit is set.
pub open spec fn signed<A: Scalar>(negative: bool, mag: A) -> A {
    if negative {
        mag.negated_spec()
    } else {
        mag
    }
}

/// The value of a 4-bit E2M1 code: the sign is in bit 3.
pub open spec fn e2m1<A: Scalar>(code: u32) -> A {
    signed(code & 8 != 0, A::dyadic_spec(e2m1_halves(code), -1))
}

/// The value of an 8-bit E4M3 code: 1 sign, 4 exponent (bias 7), 3 mantissa bits. The largest
/// magnitude is 448, which the topmost code has too; there is no infinity.
pub open spec fn e4m3<A: Scalar>(code: u32) -> A {
    let e = (code >> 3) & 15;
    let m = code & 7;
    signed(
        (code >> 7) & 1 != 0,
        if e < 1 {
            A::dyadic_spec(m as int, -9)
        } else if e == 15 && m == 7 {
            A::dyadic_spec(14, 5)
        } else {
            A::dyadic_spec(8 + m, e - 10)
        },
    )
}

/// The magnitude of an E4M3 code in units of `2^-9`.
pub open spec fn e4m3_units(code: u32) -> int {
    let e = (code >> 3) & 15;
    let m = code & 7;
    if e < 1 {
        m as int
    } else if e == 15 && m == 7 {
        14 * (pow2(14) as int)
    } else {
        (8 + m) * (pow2((e - 1) as nat) as int)
    }
}

/// No E4M3 code exceeds 448 in magnitude, and only the two topmost codes of a sign reach it.
pub proof fn law_e4m3_is_bounded(code: u32)
    ensures
        0 <= e4m3_units(code) <= 448 * 512,
        e4m3_units(code) == 448 * 512 <==> (code >> 3) & 15 == 15 && code & 7 >= 6,
{
    lemma_fields(code);
    lemma2_to64();
    let e = (code >> 3) & 15;
    let m = code & 7;
    if e == 15 {
        assert(pow2((e - 1) as nat) == 16384);
    } else if e >= 1 {
        if e < 14 {
            lemma_pow2_strictly_increases((e - 1) as nat, 13);
        }
        let p = pow2((e - 1) as nat) as int;
        assert(0 <= (8 + m) * p <= 15 * 8192) by (nonlinear_arith)
            requires
                0 <= m <= 7,
                0 <= p <= 8192,
        ;
    }
}

/// In exact arithmetic an E4M3 code is its magnitude, signed.
pub proof fn law_e4m3_is_its_magnitude<A: Scalar>(code: u32)
    requires
        lossless::<A>(),
    ensures
        e4m3::<A>(code) == signed((code >> 7) & 1 != 0, A::dyadic_spec(e4m3_units(code), -9)),
{
    let e = (code >> 3) & 15;
    let m = code & 7;
    if e == 15 && m == 7 {
        lemma_shifted::<A>(14, 14, -9);
    } else if e >= 1 {
        lemma_shifted::<A>(8 + m, (e - 1) as nat, -9);
    }
}

/// The value of an 8-bit E5M2 code, the high byte of an IEEE half: 1 sign, 5 exponent
/// (bias 15), 2 mantissa bits. Exponent 31 holds the infinities, the negative one of which is
/// the lowest number, and what is not a number.
pub open spec fn e5m2<A: Scalar>(code: u32) -> A {
    let e = (code >> 2) & 31;
    let m = code & 3;
    signed(
        (code >> 7) & 1 != 0,
        if e < 1 {
            A::dyadic_spec(m as int, -16)
        } else if e < 31 {
            A::dyadic_spec(4 + m, e - 17)
        } else if m == 0 {
            A::lowest_spec().negated_spec()
        } else {
            A::lowest_spec().minus_spec(A::lowest_spec())
        },
    )
}

/// The low `bits` bits of `code`, read as a two's complement integer.
pub open spec fn sign_extended(code: u32, bits: int) -> int {
    let half = vstd::arithmetic::power2::pow2((bits - 1) as nat) as int;
    let low = code as int % (2 * half);
    if low >= half {
        low - 2 * half
    } else {
        low
    }
}

/// The value of an E8M0 scale byte: `2^(b - 127)`.
pub open spec fn e8m0<A: Scalar>(raw: u32) -> A {
    A::dyadic_spec(1, raw - 127)
}

proof fn lemma_fields(c: u32)
    by (bit_vector)
    ensures
        c & 7 < 8,
        c & 3 < 4,
        c & 15 < 16,
        c & 255 < 256,
        c & 255 == c % 256,
        (c >> 3) & 15 < 16,
        (c >> 2) & 31 < 32,
{
}

/// Decodes a 4-bit E2M1 code held in the low nibble.
pub fn iron_decode_e2m1<A: Scalar>(code: u32) -> (r: A)
    ensures
        r == e2m1::<A>(code),
{
    let m: u32 = code & 7;
    let halves: i64 = if m < 1 {
        0
    } else if m < 2 {
        1
    } else if m < 3 {
        2
    } else if m < 4 {
        3
    } else if m < 5 {
        4
    } else if m < 6 {
        6
    } else if m < 7 {
        8
    } else {
        12
    };
    let mag = A::dyadic(halves, -1);
    if code & 8 != 0 {
        mag.negated()
    } else {
        mag
    }
}

/// Decodes an 8-bit E4M3 code held in the low byte: at most 448 in magnitude.
pub fn iron_decode_e4m3<A: Scalar>(code: u32) -> (r: A)
    ensures
        r == e4m3::<A>(code),
        e4m3_units(code) <= 448 * 512,
{
    proof {
        lemma_fields(code);
        law_e4m3_is_bounded(code);
    }
    let e: u32 = (code >> 3) & 15;
    let m: u32 = code & 7;
    let mag = if e < 1 {
        A::dyadic(m as i64, -9)
    } else if e == 15 && m == 7 {
        A::dyadic(14, 5)
    } else {
        A::dyadic(8 + m as i64, e as i32 - 10)
    };
    if (code >> 7) & 1 != 0 {
        mag.negated()
    } else {
        mag
    }
}

/// Decodes an 8-bit E5M2 code held in the low byte.
pub fn iron_decode_e5m2<A: Scalar>(code: u32) -> (r: A)
    ensures
        r == e5m2::<A>(code),
{
    proof {
        lemma_fields(code);
    }
    let e: u32 = (code >> 2) & 31;
    let m: u32 = code & 3;
    let mag = if e < 1 {
        A::dyadic(m as i64, -16)
    } else if e < 31 {
        A::dyadic(4 + m as i64, e as i32 - 17)
    } else if m == 0 {
        A::lowest().negated()
    } else {
        A::lowest().minus(A::lowest())
    };
    if (code >> 7) & 1 != 0 {
        mag.negated()
    } else {
        mag
    }
}

/// Decodes a symmetric-int8 code held in the low byte.
pub fn iron_decode_int8<A: Scalar>(code: u32) -> (r: A)
    ensures
        r == whole::<A>(sign_extended(code, 8)),
{
    proof {
        lemma_fields(code);
        vstd::arithmetic::power2::lemma2_to64();
    }
    let low: i64 = (code & 255) as i64;
    A::dyadic(
        if low >= 128 {
            low - 256
        } else {
            low
        },
        0,
    )
}

/// Decodes an 8-bit E8M0 exponent byte into a power-of-two scale.
pub fn iron_decode_e8m0<A: Scalar>(raw: u32) -> (r: A)
    requires
        raw <= 255,
    ensures
        r == e8m0::<A>(raw),
{
    A::dyadic(1, raw as i32 - 127)
}

/// The `bits` bits that start at bit `shift` of the 64-bit window `w1:w0`.
pub open spec fn window(w0: u32, w1: u32, shift: u32, bits: u32) -> u32 {
    let pair = w0 as u64 | ((w1 as u64) << 32u64);
    let mask = ((1u64 << (bits as u64)) - 1) as u64;
    ((pair >> (shift as u64)) & mask) as u32
}

proof fn lemma_unpack(w0: u32, w1: u32, s: u32, lb: u32, sp: u32)
    by (bit_vector)
    requires
        s < 32,
        lb < 32,
        sp < 32,
        lb + sp <= 32,
        s + lb <= 32,
        sp == 0 || s + lb == 32,
    ensures
        ((w0 >> s) & (((1u32 << lb) - 1) as u32)) | ((w1 & (((1u32 << sp) - 1) as u32)) << lb)
            == window(w0, w1, s, (lb + sp) as u32),
        (1u32 << lb) >= 1,
        (1u32 << sp) >= 1,
{
}

/// A field that does not straddle is a shift and a mask.
pub proof fn lemma_field(w: u32, s: u32, bits: u32)
    by (bit_vector)
    requires
        0 < bits <= 8,
        s + bits <= 32,
    ensures
        (w >> s) & (((1u32 << bits) - 1) as u32) == window(w, w, s, bits),
        1u32 << bits >= 1,
{
}

/// A code fits its width.
pub proof fn lemma_window_bound(w0: u32, w1: u32, s: u32, bits: u32)
    by (bit_vector)
    requires
        0 < bits <= 8,
        s < 32,
    ensures
        window(w0, w1, s, bits) < (1u32 << bits),
        1u32 << bits <= 256,
{
}

/// Extracts the unsigned code of `lo_bits + spill` bits that starts at bit `bit_in_w` of
/// `w0` and continues into the low bits of `w1` where it straddles the word boundary.
pub fn iron_unpack_nbit(w0: u32, w1: u32, bit_in_w: u32, lo_bits: u32, spill: u32) -> (r: u32)
    requires
        bit_in_w < 32,
        lo_bits < 32,
        spill < 32,
        lo_bits + spill <= 32,
        bit_in_w + lo_bits <= 32,
        spill == 0 || bit_in_w + lo_bits == 32,
    ensures
        r == window(w0, w1, bit_in_w, (lo_bits + spill) as u32),
{
    proof {
        lemma_unpack(w0, w1, bit_in_w, lo_bits, spill);
    }
    let lo: u32 = (w0 >> bit_in_w) & ((1u32 << lo_bits) - 1u32);
    let hi: u32 = (w1 & ((1u32 << spill) - 1u32)) << lo_bits;
    lo | hi
}

/// Code `k` of the little-endian stream of `bits`-bit codes that starts at word `base`.
pub open spec fn code_at(words: Seq<u32>, base: int, bits: int, k: int) -> u32 {
    let i = base + (k * bits) / 32;
    let s = (k * bits) % 32;
    window(
        words[i],
        if s + bits > 32 {
            words[i + 1]
        } else {
            words[i]
        },
        s as u32,
        bits as u32,
    )
}

/// The words that the first `n` codes of a stream occupy.
pub open spec fn code_words(bits: int, n: int) -> int {
    (n * bits + 31) / 32
}

/// Reads code `k` of a stream.
pub(crate) fn read_code(words: &[u32], base: usize, bits: u32, k: usize, n: Ghost<int>) -> (r: u32)
    requires
        0 < bits <= 8,
        k < n@,
        base + code_words(bits as int, n@) <= words@.len(),
        n@ * bits <= usize::MAX,
    ensures
        r == code_at(words@, base as int, bits as int, k as int),
{
    proof {
        assert((k + 1) * bits <= n@ * bits) by (nonlinear_arith)
            requires
                k + 1 <= n@,
                0 < bits,
        ;
        assert((k + 1) * bits == k * bits + bits) by (nonlinear_arith);
        assert(0 <= k * bits) by (nonlinear_arith);
        assert(words@.len() == words.len());
    }
    let bit_off: usize = k * (bits as usize);
    let word_idx: usize = bit_off / 32;
    let bit_in_w: u32 = (bit_off % 32) as u32;
    let bits_in_w0: u32 = 32 - bit_in_w;
    let lo_bits: u32 = if bits_in_w0 >= bits {
        bits
    } else {
        bits_in_w0
    };
    let spill: u32 = bits - lo_bits;
    let w0: u32 = words[base + word_idx];
    let w1: u32 = words[base + if spill > 0 {
        word_idx + 1
    } else {
        word_idx
    }];
    iron_unpack_nbit(w0, w1, bit_in_w, lo_bits, spill)
}

/// In exact arithmetic every E8M0 byte is twice the one before it, and byte 127 is one.
pub proof fn law_e8m0_doubles<A: Scalar>(raw: u32)
    requires
        lossless::<A>(),
        raw < 255,
    ensures
        e8m0::<A>((raw + 1) as u32) == whole::<A>(2).times_spec(e8m0(raw)),
        e8m0::<A>(127) == whole::<A>(1),
{
    dyadic_times::<A>(2, 0, 1, raw - 127);
    lemma_shifted::<A>(1, 1, raw - 127);
    lemma2_to64();
}

/// In exact arithmetic an E8M0 byte from 127 on is a whole power of two, and one below is what
/// that power of two makes one.
pub proof fn law_e8m0_is_a_power<A: Scalar>(raw: u32)
    requires
        lossless::<A>(),
        raw <= 255,
    ensures
        raw >= 127 ==> e8m0::<A>(raw) == whole::<A>(pow2((raw - 127) as nat) as int),
        raw <= 127 ==> e8m0::<A>(raw).times_spec(whole(pow2((127 - raw) as nat) as int)) == whole::<
            A,
        >(1),
{
    if raw >= 127 {
        lemma_shifted::<A>(1, (raw - 127) as nat, 0);
    }
    if raw <= 127 {
        let p = pow2((127 - raw) as nat) as int;
        dyadic_times::<A>(1, raw - 127, p, 0);
        lemma_shifted::<A>(1, (127 - raw) as nat, raw - 127);
    }
}

/// In exact arithmetic twice an E2M1 code is a whole number: a sign, two exponent digits and
/// one mantissa digit, the lowest exponent being that of the subnormals.
pub proof fn law_e2m1_value<A: Scalar>(code: u32)
    requires
        lossless::<A>(),
    ensures
        ({
            let (sign, e, m) = (code / 8 % 2, code / 2 % 4, code % 2);
            let mag = if e == 0 {
                m as int
            } else {
                (2 + m) * (pow2((e - 1) as nat) as int)
            };
            whole::<A>(2).times_spec(e2m1(code)) == whole::<A>(
                if sign == 1 {
                    -mag
                } else {
                    mag
                },
            )
        }),
{
    assert(code & 7 == code % 8 && (code & 8 != 0) == (code / 8 % 2 == 1)) by (bit_vector);
    lemma2_to64();
    let (e, m) = (code / 2 % 4, code % 2);
    let mag = if e == 0 {
        m as int
    } else {
        (2 + m) * (pow2((e - 1) as nat) as int)
    };
    assert(code % 8 == 2 * e + m);
    assert(e == 0 || e == 1 || e == 2 || e == 3);
    assert(m == 0 || m == 1);
    if e > 0 {
        let p = pow2((e - 1) as nat) as int;
        assert(e == 1 ==> p == 1);
        assert(e == 2 ==> p == 2);
        assert(e == 3 ==> p == 4);
        assert((2 + m) * p == 2 * p + m * p) by (nonlinear_arith);
        assert(m == 0 ==> m * p == 0);
        assert(m == 1 ==> m * p == p);
    }
    assert(e2m1_halves(code) == mag);
    lemma_signed_value::<A>(code & 8 != 0, mag, 1);
}

/// A signed dyadic number, brought to a whole one.
proof fn lemma_signed_value<A: Scalar>(negative: bool, m: int, e: nat)
    requires
        lossless::<A>(),
    ensures
        whole::<A>(pow2(e) as int).times_spec(signed(negative, A::dyadic_spec(m, -(e as int))))
            == whole::<A>(
            if negative {
                -m
            } else {
                m
            },
        ),
{
    let p: A = whole(pow2(e) as int);
    let v = A::dyadic_spec(m, -(e as int));
    dyadic_times::<A>(pow2(e) as int, 0, m, -(e as int));
    lemma_shifted::<A>(m, e, -(e as int));
    assert(pow2(e) as int * m == m * pow2(e)) by (nonlinear_arith);
    times_comm(p, v);
    negated_times(v, p);
    times_comm(p, v.negated_spec());
    lemma_negated_whole::<A>(m);
}

/// The negative of a whole number.
proof fn lemma_negated_whole<A: Scalar>(m: int)
    requires
        lossless::<A>(),
    ensures
        whole::<A>(m).negated_spec() == whole::<A>(-m),
{
    reveal(negation_multiplies);
    dyadic_times::<A>(-1, 0, m, 0);
    assert(-1 * m == -m);
}

/// In exact arithmetic 512 times an E4M3 code is a whole number: a sign, four exponent digits
/// and three mantissa digits, capped at 448.
pub proof fn law_e4m3_value<A: Scalar>(code: u32)
    requires
        lossless::<A>(),
    ensures
        ({
            let (sign, e, m) = (code / 128 % 2, code / 8 % 16, code % 8);
            let mag = if e == 0 {
                m as int
            } else if e == 15 && m == 7 {
                229376int
            } else {
                (8 + m) * (pow2((e - 1) as nat) as int)
            };
            whole::<A>(512).times_spec(e4m3(code)) == whole::<A>(
                if sign == 1 {
                    -mag
                } else {
                    mag
                },
            )
        }),
{
    assert(code & 7 == code % 8 && (code >> 3) & 15 == code / 8 % 16 && (code >> 7) & 1 == code
        / 128 % 2) by (bit_vector);
    lemma2_to64();
    law_e4m3_is_its_magnitude::<A>(code);
    lemma_signed_value::<A>((code >> 7) & 1 != 0, e4m3_units(code), 9);
}

/// In exact arithmetic `2^16` times a finite E5M2 code is a whole number: a sign, five
/// exponent digits and two mantissa digits. The last exponent holds the infinities and what is
/// not a number.
pub proof fn law_e5m2_value<A: Scalar>(code: u32)
    requires
        lossless::<A>(),
    ensures
        ({
            let (sign, e, m) = (code / 128 % 2, code / 4 % 32, code % 4);
            let mag = if e == 0 {
                m as int
            } else {
                (4 + m) * (pow2((e - 1) as nat) as int)
            };
            let infinity = A::lowest_spec().negated_spec();
            let nan = A::lowest_spec().minus_spec(A::lowest_spec());
            if e < 31 {
                whole::<A>(65536).times_spec(e5m2(code)) == whole::<A>(
                    if sign == 1 {
                        -mag
                    } else {
                        mag
                    },
                )
            } else {
                e5m2::<A>(code) == signed(
                    sign == 1,
                    if m == 0 {
                        infinity
                    } else {
                        nan
                    },
                )
            }
        }),
{
    assert(code & 3 == code % 4 && (code >> 2) & 31 == code / 4 % 32 && (code >> 7) & 1 == code
        / 128 % 2) by (bit_vector);
    lemma2_to64();
    let (e, m) = (code / 4 % 32, code % 4);
    if e == 0 {
        lemma_signed_value::<A>((code >> 7) & 1 != 0, m as int, 16);
    } else if e < 31 {
        lemma_shifted::<A>(4 + m, (e - 1) as nat, -16);
        lemma_signed_value::<A>(
            (code >> 7) & 1 != 0,
            (4 + m) * (pow2((e - 1) as nat) as int),
            16,
        );
    }
}

/// Sign extension gives back the number whose two's complement was cut to `bits` digits.
pub proof fn law_sign_extension(code: u32, bits: int, q: int)
    requires
        1 <= bits <= 31,
        -(pow2((bits - 1) as nat) as int) <= q < pow2((bits - 1) as nat),
        code as int % (pow2(bits as nat) as int) == q % (pow2(bits as nat) as int),
    ensures
        sign_extended(code, bits) == q,
{
    let half = pow2((bits - 1) as nat) as int;
    lemma_pow2_pos((bits - 1) as nat);
    lemma_pow2_unfold(bits as nat);
    lemma_complement(q, q % (2 * half), half);
}

} // verus!
