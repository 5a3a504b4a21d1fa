//! Q2_K blocks: 256 two-bit values under sixteen pairs of four-bit scales and minima.
use crate::layout::{lemma_digits, packs};
use crate::rows::{fill_rows, RowWork};
use crate::scalar::{whole, Scalar, Storage};
use crate::tensor::filled;
use std::marker::PhantomData;
use vstd::arithmetic::power2::lemma2_to64;
use vstd::prelude::*;

verus! {

/// The quant byte of value `i` of a block.
pub open spec fn quant_byte(i: int) -> int {
    i / 128 * 32 + i % 32
}

/// The shift that leads to value `i` in its byte.
pub open spec fn quant_shift(i: int) -> int {
    i % 128 / 32 * 2
}

/// The scale byte of value `i` of a block.
pub open spec fn scale_byte(i: int) -> int {
    i / 16
}

/// Byte `b` of a little-endian word.
pub open spec fn byte_in(word: u32, b: int) -> u32 {
    (word >> ((b * 8) as u32)) & 0xff
}

/// The two-bit code of value `i`.
pub open spec fn q2_code(qs: Seq<u32>, i: int) -> u32 {
    let at = quant_byte(i % 256);
    (byte_in(qs[i / 256 * 16 + at / 4], at % 4) >> (quant_shift(i % 256) as u32)) & 3
}

/// The values: `d * scale * q - dmin * min`.
pub open spec fn q2_values<A: Scalar, T: Storage<A>>(
    qs: Seq<u32>,
    scales: Seq<u8>,
    d: Seq<A>,
    dmin: Seq<A>,
) -> spec_fn(int) -> T {
    |i: int|
        {
            let byte = scales[i / 256 * 16 + scale_byte(i % 256)] as u32;
            T::narrow_spec(
                d[i / 256].times_spec(whole((byte & 15) as int)).times_spec(
                    whole(q2_code(qs, i) as int),
                ).minus_spec(dmin[i / 256].times_spec(whole(((byte >> 4) & 15) as int))),
            )
        }
}

/// No two values of a block share their bits.
pub proof fn law_quants_are_distinct(i: int, j: int)
    requires
        0 <= i < j < 256,
    ensures
        0 <= quant_byte(i) < 64,
        0 <= quant_shift(i) <= 6,
        quant_byte(i) != quant_byte(j) || quant_shift(i) != quant_shift(j),
{
}

struct Values<'a, A, T> {
    qs_packed: &'a [u32],
    scales: &'a [u8],
    d: &'a [A],
    dmin: &'a [A],
    n_values: usize,
    stored: PhantomData<T>,
}

proof fn lemma_small_fields(word: u32, s: u32, t: u32, byte: u32)
    by (bit_vector)
    ensures
        ((word >> s) & 0xff) <= 255,
        (((word >> s) & 0xff) >> t) & 3 <= 3,
        byte & 15 <= 15,
        (byte >> 4) & 15 <= 15,
{
}

/// The quant byte, the shift and the scale byte of a value of a block.
fn places(in_block: usize) -> (p: (usize, u32, usize))
    requires
        in_block < 256,
    ensures
        p.0 == quant_byte(in_block as int),
        p.1 == quant_shift(in_block as int),
        p.2 == scale_byte(in_block as int),
        p.0 < 64,
        p.1 <= 6,
        p.2 < 16,
{
    let half: usize = in_block / 128;
    let yh: usize = in_block - half * 128;
    let jg: usize = yh / 32;
    let yg: usize = yh - jg * 32;
    let sub_half: usize = yg / 16;
    let l: usize = yg - sub_half * 16;
    (half * 32 + sub_half * 16 + l, (jg * 2) as u32, half * 8 + jg * 2 + sub_half)
}

impl<'a, A: Scalar, T: Storage<A>> RowWork<T> for Values<'a, A, T> {
    closed spec fn ready(&self) -> bool {
        let blocks = (self.n_values + 255) / 256;
        &&& blocks * 16 <= self.qs_packed@.len()
        &&& blocks * 16 <= self.scales@.len()
        &&& blocks <= self.d@.len()
        &&& blocks <= self.dmin@.len()
    }

    closed spec fn rows(&self) -> int {
        self.n_values as int
    }

    closed spec fn values(&self, before: Seq<T>) -> spec_fn(int) -> T {
        q2_values::<A, T>(self.qs_packed@, self.scales@, self.d@, self.dmin@)
    }

    fn row(&self, prev: T, r: usize, before: Ghost<Seq<T>>) -> (v: T) {
        assert(self.qs_packed@.len() == self.qs_packed.len());
        let block: usize = r / 256;
        let in_block: usize = r - block * 256;
        let (q_byte, shift, scale_idx) = places(in_block);
        assert(in_block == r as int % 256);
        assert(block < (self.n_values + 255) / 256);
        let word: u32 = self.qs_packed[block * 16 + q_byte / 4];
        let s: u32 = ((q_byte % 4) * 8) as u32;
        let byte: u32 = self.scales[block * 16 + scale_idx] as u32;
        proof {
            lemma_small_fields(word, s, shift, byte);
        }
        let q: u32 = (((word >> s) & 0xff) >> shift) & 3;
        let scale: A = A::dyadic((byte & 15) as i64, 0);
        let min: A = A::dyadic(((byte >> 4) & 15) as i64, 0);
        let scaled: A = self.d[block].times(scale).times(A::dyadic(q as i64, 0));
        T::narrow(scaled.minus(self.dmin[block].times(min)))
    }
}

/// Expands `n_values` values, one thread per value.
pub fn iron_gguf_dequant_q2_k<A: Scalar, T: Storage<A>>(
    qs_packed: &[u32],
    scales: &[u8],
    d_f32: &[A],
    dmin_f32: &[A],
    out: &mut Vec<T>,
    n_values: u32,
)
    requires
        (n_values + 255) / 256 * 16 <= qs_packed@.len(),
        (n_values + 255) / 256 * 16 <= scales@.len(),
        (n_values + 255) / 256 <= d_f32@.len(),
        (n_values + 255) / 256 <= dmin_f32@.len(),
        n_values <= old(out)@.len(),
        n_values < u32::MAX,
    ensures
        filled(
            old(out)@,
            final(out)@,
            n_values as int,
            q2_values::<A, T>(qs_packed@, scales@, d_f32@, dmin_f32@),
        ),
{
    let work = Values {
        qs_packed,
        scales,
        d: d_f32,
        dmin: dmin_f32,
        n_values: n_values as usize,
        stored: PhantomData,
    };
    fill_rows(&work, out, n_values as usize, 1);
}

/// Blocks are independent: a value of a tensor of many blocks is that value of the tensor that
/// consists of its block alone.
pub proof fn law_blocks_are_independent<A: Scalar, T: Storage<A>>(
    qs: Seq<u32>,
    scales: Seq<u8>,
    d: Seq<A>,
    dmin: Seq<A>,
    i: int,
)
    requires
        0 <= i,
        i / 256 * 16 + 16 <= qs.len(),
        i / 256 * 16 + 16 <= scales.len(),
        i / 256 < d.len(),
        i / 256 < dmin.len(),
    ensures
        ({
            let b = i / 256;
            (q2_values::<A, T>(qs, scales, d, dmin))(i) == (q2_values::<A, T>(
                qs.subrange(b * 16, b * 16 + 16),
                scales.subrange(b * 16, b * 16 + 16),
                seq![d[b]],
                seq![dmin[b]],
            ))(i % 256)
        }),
{
    let b = i / 256;
    let own = i % 256;
    assert(own / 256 == 0 && own % 256 == own);
    let at = quant_byte(own);
    assert(0 <= at < 64 && 0 <= at / 4 < 16);
    assert(qs.subrange(b * 16, b * 16 + 16)[at / 4] == qs[b * 16 + at / 4]);
    assert(0 <= scale_byte(own) < 16);
    assert(scales.subrange(b * 16, b * 16 + 16)[scale_byte(own)] == scales[b * 16 + scale_byte(
        own,
    )]);
    assert(seq![d[b]][0] == d[b] && seq![dmin[b]][0] == dmin[b]);
}

/// Value `i` of a block is its code, times the low half of its scale byte and the block's
/// scale, less the high half times the block's minimum. Every sixteen values share a scale
/// byte. The codes lie two digits each in a stream: four codes of a byte are 32 values apart,
/// and 128 values fill 32 bytes.
#[allow(clippy::too_many_arguments)]
pub proof fn law_q2_k_values<A: Scalar, T: Storage<A>>(
    qs: Seq<u32>,
    scales: Seq<u8>,
    d: Seq<A>,
    dmin: Seq<A>,
    before: Seq<T>,
    out: Seq<T>,
    n_values: int,
    b: int,
    half: int,
    quarter: int,
    l: int,
    c: spec_fn(int) -> int,
)
    requires
        filled(before, out, n_values, q2_values::<A, T>(qs, scales, d, dmin)),
        0 <= b,
        0 <= half < 2,
        0 <= quarter < 4,
        0 <= l < 32,
        b * 256 + half * 128 + quarter * 32 + l < n_values,
        packs(qs, b * 16, 2, 256, c),
        forall|k: int| 0 <= k < 256 ==> 0 <= #[trigger] c(k) < 4,
    ensures
        ({
            let byte = scales[b * 16 + half * 8 + quarter * 2 + l / 16] as int;
            out[b * 256 + half * 128 + quarter * 32 + l] == T::narrow_spec(
                d[b].times_spec(whole(byte % 16)).times_spec(
                    whole(c((half * 32 + l) * 4 + quarter)),
                ).minus_spec(dmin[b].times_spec(whole(byte / 16))),
            )
        }),
{
    let i = b * 256 + half * 128 + quarter * 32 + l;
    let own = half * 128 + quarter * 32 + l;
    assert(i / 256 == b && i % 256 == own);
    assert(own / 128 == half && own % 128 == quarter * 32 + l && own % 32 == l);
    assert(quant_byte(own) == half * 32 + l && quant_shift(own) == quarter * 2);
    assert(scale_byte(own) == half * 8 + quarter * 2 + l / 16);
    let at = half * 32 + l;
    let k = at * 4 + quarter;
    let word = qs[b * 16 + at / 4];
    assert((k * 2) / 32 == at / 4 && (k * 2) % 32 == at % 4 * 8 + quarter * 2);
    lemma2_to64();
    lemma_digits(word, at % 4 * 8 + quarter * 2);
    assert(((word >> ((at % 4 * 8) as u32)) & 0xff) >> ((quarter * 2) as u32) & 3 == (word >> ((at
        % 4 * 8 + quarter * 2) as u32)) & 3) by {
        lemma_nested(word, (at % 4 * 8) as u32, (quarter * 2) as u32);
    }
    assert(c(k) % 4 == c(k));
    assert(q2_code(qs, i) == c(k));
    let byte = scales[b * 16 + half * 8 + quarter * 2 + l / 16];
    lemma_halves_of_byte(byte as u32);
    assert(out[i] == (q2_values::<A, T>(qs, scales, d, dmin))(i));
}

/// A field of a byte is a field of the word.
proof fn lemma_nested(word: u32, s: u32, t: u32)
    by (bit_vector)
    requires
        s <= 24,
        t <= 6,
    ensures
        (((word >> s) & 0xff) >> t) & 3 == (word >> ((s + t) as u32)) & 3,
{
}

proof fn lemma_halves_of_byte(byte: u32)
    by (bit_vector)
    requires
        byte < 256,
    ensures
        byte & 15 == byte % 16,
        (byte >> 4) & 15 == byte / 16,
{
}

} // verus!
