//! Where packed codes lie, told by place value.
use crate::primitives::{code_at, lemma_field, window};
use vstd::arithmetic::power2::{lemma2_to64, lemma_pow2_pos, pow2};
use vstd::bits::{
    lemma_u32_shr_is_div, lemma_u64_low_bits_mask_is_mod, lemma_u64_shr_is_div, low_bits_mask,
};
use vstd::prelude::*;

verus! {

/// `bits` binary digits of a number, from digit `at` on.
pub open spec fn digits(n: int, at: int, bits: int) -> int {
    n / (pow2(at as nat) as int) % (pow2(bits as nat) as int)
}

/// Digits `k * bits` to `k * bits + bits - 1` of the words from `base` on, each word the low
/// end of the next.
pub open spec fn stream_digits(words: Seq<u32>, base: int, bits: int, k: int) -> int {
    let at = k * bits;
    let i = base + at / 32;
    digits(
        if at % 32 + bits > 32 {
            words[i] + 4294967296 * words[i + 1]
        } else {
            words[i] as int
        },
        at % 32,
        bits,
    )
}

/// The words from `base` on hold the numbers `q`, `bits` binary digits each, negative ones as
/// two's complements.
pub open spec fn packs(
    words: Seq<u32>,
    base: int,
    bits: int,
    n: int,
    q: spec_fn(int) -> int,
) -> bool {
    forall|k: int|
        0 <= k < n ==> stream_digits(words, base, bits, k) == #[trigger] q(k) % (pow2(
            bits as nat,
        ) as int)
}

/// A shifted and masked word is its digits.
pub proof fn lemma_digits(w: u32, at: int)
    requires
        0 <= at < 32,
    ensures
        (w >> (at as u32)) & 1 == digits(w as int, at, 1),
        (w >> (at as u32)) & 3 == digits(w as int, at, 2),
        (w >> (at as u32)) & 7 == digits(w as int, at, 3),
        (w >> (at as u32)) & 0xf == digits(w as int, at, 4),
        (w >> (at as u32)) & 0x1f == digits(w as int, at, 5),
        (w >> (at as u32)) & 0x7f == digits(w as int, at, 7),
        (w >> (at as u32)) & 0xff == digits(w as int, at, 8),
        (w >> (at as u32)) & 0x3ff == digits(w as int, at, 10),
{
    lemma_u32_shr_is_div(w, at as u32);
    lemma2_to64();
    let v = w >> (at as u32);
    assert(v & 1 == v % 2 && v & 3 == v % 4 && v & 7 == v % 8 && v & 0xf == v % 16 && v & 0x1f == v
        % 32 && v & 0x7f == v % 128 && v & 0xff == v % 256 && v & 0x3ff == v % 1024)
        by (bit_vector);
}

proof fn lemma_joined(w0: u32, w1: u32)
    by (bit_vector)
    ensures
        w0 as u64 | ((w1 as u64) << 32u64) == w0 as u64 + 0x1_0000_0000u64 * (w1 as u64),
{
}

/// A window of two words is its digits.
pub proof fn lemma_window_digits(w0: u32, w1: u32, s: u32, bits: u32)
    requires
        s < 32,
        bits <= 32,
    ensures
        window(w0, w1, s, bits) == digits(w0 + 4294967296 * w1, s as int, bits as int),
{
    lemma_joined(w0, w1);
    let pair = w0 as u64 | ((w1 as u64) << 32u64);
    lemma_u64_shr_is_div(pair, s as u64);
    let v = pair >> (s as u64);
    lemma_u64_low_bits_mask_is_mod(v, bits as nat);
    lemma2_to64();
    lemma_pow2_pos(bits as nat);
    if bits < 32 {
        vstd::arithmetic::power2::lemma_pow2_strictly_increases(bits as nat, 32);
    }
    vstd::bits::lemma_u64_shl_is_mul(1, bits as u64);
    assert(low_bits_mask(bits as nat) as u64 == ((1u64 << (bits as u64)) - 1) as u64);
    assert(v % (pow2(bits as nat) as u64) < pow2(bits as nat)) by {
        vstd::arithmetic::div_mod::lemma_mod_bound(v as int, pow2(bits as nat) as int);
    }
}

/// A code of a stream is the stream's digits.
pub proof fn lemma_code_digits(words: Seq<u32>, base: int, bits: int, k: int)
    requires
        0 < bits <= 8,
        0 <= k,
    ensures
        code_at(words, base, bits, k) == stream_digits(words, base, bits, k),
        0 <= stream_digits(words, base, bits, k) < pow2(bits as nat),
{
    let s = (k * bits) % 32;
    let i = base + (k * bits) / 32;
    lemma_pow2_pos(bits as nat);
    if s + bits > 32 {
        lemma_window_digits(words[i], words[i + 1], s as u32, bits as u32);
    } else {
        let w = words[i];
        lemma_field(w, s as u32, bits as u32);
        lemma_u32_shr_is_div(w, s as u32);
        vstd::bits::lemma_u32_low_bits_mask_is_mod(w >> (s as u32), bits as nat);
        lemma2_to64();
        if bits < 8 {
            vstd::arithmetic::power2::lemma_pow2_strictly_increases(bits as nat, 8);
        }
        vstd::bits::lemma_u32_shl_is_mul(1, bits as u32);
    }
    vstd::arithmetic::div_mod::lemma_mod_bound(
        (if s + bits > 32 {
            words[i] + 4294967296 * words[i + 1]
        } else {
            words[i] as int
        }) / (pow2(s as nat) as int),
        pow2(bits as nat) as int,
    );
}

/// A number of a signed range is what its two's complement reads as.
pub proof fn lemma_complement(q: int, c: int, half: int)
    requires
        0 < half,
        -half <= q < half,
        c == q % (2 * half),
    ensures
        q == (if c >= half {
            c - 2 * half
        } else {
            c
        }),
{
    if q >= 0 {
        vstd::arithmetic::div_mod::lemma_small_mod(q as nat, (2 * half) as nat);
    } else {
        vstd::arithmetic::div_mod::lemma_mod_add_multiples_vanish(q, 2 * half);
        vstd::arithmetic::div_mod::lemma_small_mod((q + 2 * half) as nat, (2 * half) as nat);
    }
}

/// Where the `k`-th byte of a stream lies.
pub proof fn lemma_byte_place(words: Seq<u32>, base: int, k: int)
    requires
        0 <= k,
    ensures
        stream_digits(words, base, 8, k) == (words[base + k / 4] >> (((k % 4) * 8) as u32)) & 0xff,
{
    assert((k * 8) / 32 == k / 4 && (k * 8) % 32 == (k % 4) * 8);
    lemma_digits(words[base + k / 4], (k % 4) * 8);
}

/// Where the `k`-th nibble of a stream lies.
pub proof fn lemma_nibble_place(words: Seq<u32>, base: int, k: int)
    requires
        0 <= k,
    ensures
        stream_digits(words, base, 4, k) == (words[base + k / 8] >> (((k % 8) * 4) as u32)) & 0xf,
{
    assert((k * 4) / 32 == k / 8 && (k * 4) % 32 == (k % 8) * 4);
    lemma_digits(words[base + k / 8], (k % 8) * 4);
}

} // verus!
