//! Expansion of Q4 blocks to dense weights.
use crate::gemm::q4::{law_packed_codes_come_back, nibble, packed_word, signed_nibble};
use crate::layout::{lemma_complement, lemma_nibble_place, packs};
use crate::scalar::{whole, Scalar, Storage};
use crate::tensor::filled;
use vstd::arithmetic::power2::lemma2_to64;
use vstd::prelude::*;

verus! {

/// Nibble `n` of a word under the scale `d`.
pub open spec fn nibble_value<A: Scalar, T: Storage<A>>(word: u32, d: A, n: int) -> T {
    T::narrow_spec(
        whole::<A>(signed_nibble((word >> ((n * 4) as u32)) & 0xf)).times_spec(d),
    )
}

/// The dense values from block `blk_off` on: value `v` is `q * scale`, nibble `v % 8` of its
/// word under the scale of its block of 32.
pub open spec fn q4_values<A: Scalar, D: Storage<A>, T: Storage<A>>(
    qs: Seq<u32>,
    scales: Seq<D>,
    blk_off: int,
) -> spec_fn(int) -> T {
    |v: int|
        {
            let word = qs[(blk_off + v / 32) * 4 + v % 32 / 8];
            nibble_value::<A, T>(word, scales[blk_off + v / 32].widen_spec(), v % 8)
        }
}

/// A word's place by row, block and word is its place in order.
proof fn lemma_word_place(i: int, k_in: int)
    requires
        0 <= i,
        k_in > 0,
        k_in % 32 == 0,
    ensures
        ({
            let bpr = k_in / 32;
            let r = i / (bpr * 4);
            let wi = i - r * (bpr * 4);
            &&& 0 <= r
            &&& 0 <= r * (bpr * 4) <= i
            &&& 0 <= wi < bpr * 4
            &&& 0 <= r * bpr
            &&& r * bpr + wi / 4 == i / 4
            &&& wi - wi / 4 * 4 == i % 4
            &&& r * k_in + wi / 4 * 32 + (wi - wi / 4 * 4) * 8 == i * 8
            &&& 0 <= r * k_in
        }),
{
    let bpr = k_in / 32;
    let per = bpr * 4;
    let r = i / per;
    vstd::arithmetic::div_mod::lemma_fundamental_div_mod(i, per);
    vstd::arithmetic::div_mod::lemma_mod_bound(i, per);
    vstd::arithmetic::div_mod::lemma_div_pos_is_pos(i, per);
    assert(per * r == r * per && r * per == 4 * (r * bpr) && r * k_in == 32 * (r * bpr) && 0 <= r
        * bpr) by (nonlinear_arith)
        requires
            per == bpr * 4,
            k_in == bpr * 32,
            0 <= r,
            0 <= bpr,
    ;
}

/// Expands the eight nibbles of `word` to `out[base..]`.
fn expand_word<A: Scalar, T: Storage<A>>(word: u32, d: A, out: &mut Vec<T>, base: usize)
    requires
        base + 8 <= old(out)@.len(),
    ensures
        final(out)@.len() == old(out)@.len(),
        forall|i: int|
            0 <= i < old(out)@.len() ==> #[trigger] final(out)@[i] == (if base <= i < base + 8 {
                nibble_value::<A, T>(word, d, i - base)
            } else {
                old(out)@[i]
            }),
{
    let ghost was = out@;
    assert(out@.len() == out.len());
    let mut n: usize = 0;
    while n < 8
        invariant
            n <= 8,
            base + 8 <= was.len() <= usize::MAX,
            out@.len() == was.len(),
            forall|i: int|
                0 <= i < was.len() ==> #[trigger] out@[i] == (if base <= i < base + n {
                    nibble_value::<A, T>(word, d, i - base)
                } else {
                    was[i]
                }),
        decreases 8 - n,
    {
        let q: i32 = nibble(word, n);
        out[base + n] = T::narrow(A::dyadic(q as i64, 0).times(d));
        n = n + 1;
    }
}

/// Expands `n_words` words of eight nibbles, one thread per word.
#[verifier::loop_isolation(false)]
pub fn iron_dequant_q4<A: Scalar, D: Storage<A>, T: Storage<A>>(
    qs: &[u32],
    scales: &[D],
    out: &mut Vec<T>,
    k_in: u32,
    n_words: u32,
    blk_off: u32,
)
    requires
        k_in > 0,
        k_in % 32 == 0,
        blk_off * 4 + n_words <= qs@.len(),
        blk_off * 4 + n_words <= scales@.len() * 4,
        n_words * 8 <= old(out)@.len(),
    ensures
        filled(
            old(out)@,
            final(out)@,
            n_words * 8,
            q4_values::<A, D, T>(qs@, scales@, blk_off as int),
        ),
{
    let ghost was = out@;
    let ghost value = q4_values::<A, D, T>(qs@, scales@, blk_off as int);
    assert(qs@.len() == qs.len() && out@.len() == out.len());
    let bpr: usize = k_in as usize / 32;
    let words_per_row: usize = bpr * 4;
    let mut i: usize = 0;
    while i < n_words as usize
        invariant
            i <= n_words,
            filled(was, out@, i * 8, value),
        decreases n_words - i,
    {
        proof {
            lemma_word_place(i as int, k_in as int);
        }
        let r: usize = i / words_per_row;
        let wi: usize = i - r * words_per_row;
        let b: usize = wi / 4;
        let w: usize = wi - b * 4;
        let blk: usize = blk_off as usize + (r * bpr + b);
        let word: u32 = qs[blk * 4 + w];
        let d: A = scales[blk].widen();
        let out_base: usize = r * (k_in as usize) + b * 32 + w * 8;
        let ghost prev = out@;
        expand_word(word, d, out, out_base);
        proof {
            assert forall|v: int| 0 <= v < i * 8 + 8 implies #[trigger] out@[v] == value(v) by {
                if v < i * 8 {
                    assert(prev[v] == value(v));
                } else {
                    assert(v / 32 == i as int / 4 && v % 8 == v - i * 8 && v % 32 / 8 == i as int
                        % 4);
                }
            }
        }
        i = i + 1;
    }
}

/// Expanding packed codes gives every code times the scale of its block; a code of zero gives
/// zero times that scale.
pub proof fn law_packed_codes_expand<A: Scalar, D: Storage<A>, T: Storage<A>>(
    codes: Seq<int>,
    qs: Seq<u32>,
    scales: Seq<D>,
    blk_off: int,
    v: int,
)
    requires
        codes.len() % 8 == 0,
        forall|i: int| 0 <= i < codes.len() ==> -8 <= #[trigger] codes[i] <= 7,
        0 <= v < codes.len(),
        forall|w: int|
            0 <= w < codes.len() / 8 ==> #[trigger] qs[blk_off * 4 + w] == packed_word(
                codes.subrange(w * 8, w * 8 + 8),
            ),
    ensures
        (q4_values::<A, D, T>(qs, scales, blk_off))(v) == T::narrow_spec(
            whole::<A>(codes[v]).times_spec(scales[blk_off + v / 32].widen_spec()),
        ),
        codes[v] == 0 ==> (q4_values::<A, D, T>(qs, scales, blk_off))(v) == T::narrow_spec(
            whole::<A>(0).times_spec(scales[blk_off + v / 32].widen_spec()),
        ),
{
    let w = v / 8;
    let own = codes.subrange(w * 8, w * 8 + 8);
    assert((blk_off + v / 32) * 4 + v % 32 / 8 == blk_off * 4 + w);
    assert(qs[blk_off * 4 + w] == packed_word(own));
    assert(own[v % 8] == codes[v]);
    law_packed_codes_come_back(own, v % 8);
}

/// Value `v` of an expansion from block `blk_off` on is its code times the scale of its block
/// of 32 values.
#[allow(clippy::too_many_arguments)]
pub proof fn law_q4_values<A: Scalar, D: Storage<A>, T: Storage<A>>(
    qs: Seq<u32>,
    scales: Seq<D>,
    before: Seq<T>,
    out: Seq<T>,
    blk_off: int,
    n: int,
    b: int,
    i: int,
    q: spec_fn(int) -> int,
)
    requires
        filled(before, out, n, q4_values::<A, D, T>(qs, scales, blk_off)),
        0 <= b,
        0 <= i < 32,
        b * 32 + i < n,
        packs(qs, blk_off * 4, 4, n, q),
        forall|k: int| 0 <= k < n ==> -8 <= #[trigger] q(k) < 8,
    ensures
        out[b * 32 + i] == T::narrow_spec(
            whole::<A>(q(b * 32 + i)).times_spec(scales[blk_off + b].widen_spec()),
        ),
{
    let v = b * 32 + i;
    assert(v / 32 == b && v % 32 == i && v % 8 == i % 8);
    lemma_nibble_place(qs, blk_off * 4, v);
    lemma2_to64();
    lemma_complement(q(v), q(v) % 16, 8);
    assert(blk_off * 4 + v / 8 == (blk_off + v / 32) * 4 + v % 32 / 8);
    assert(out[v] == (q4_values::<A, D, T>(qs, scales, blk_off))(v));
}

} // verus!
