//! IQ2_XXS blocks: 256 weights in 66 bytes, a half-precision scale and eight groups of 32
//! weights. A group is two words: four grid keys, and four sign keys under a 4-bit scale.
use crate::exact::{
    dyadic_times, keeps, law_padded_product_is_plain_sum, lemma_shifted, lemma_sum_same, lossless,
    plain_sum, times_assoc, times_comm,
};
use crate::layout::{digits, lemma_digits};
use crate::moe::affine::{source_rows, staged_rows};
use crate::moe::gather::finished;
use crate::primitives::{e5m2, law_e5m2_value};
use crate::quant::gguf_iq2_xxs_extract_qs::lemma_packed;
use crate::scalar::{round, rounded, whole, Scalar, Storage};
use crate::tensor::{cell, lemma_flat, read};
use crate::tile::{fma_terms, mma_cell, TileSource};
use std::marker::PhantomData;
use vstd::arithmetic::div_mod::{lemma_fundamental_div_mod, lemma_fundamental_div_mod_converse};
use vstd::arithmetic::power2::{lemma2_to64, pow2};
use vstd::bits::lemma_u32_shr_is_div;
use vstd::prelude::*;

verus! {

/// The value of binary16 bits: sign, 5 exponent (bias 15) and 10 mantissa bits. Exponent 31 is
/// read as any other, so infinities and not-a-numbers come out finite.
pub open spec fn half_value<A: Scalar>(bits: u32) -> A {
    let e = (bits >> 10) & 0x1f;
    let m = bits & 0x3ff;
    whole::<A>(
        if bits & 0x8000 != 0 {
            -1
        } else {
            1
        },
    ).times_spec(
        if e == 0 {
            A::dyadic_spec(m as int, -24)
        } else {
            A::dyadic_spec(1024 + m, e - 25)
        },
    )
}

/// The scale of a group: the block scale times `(s + 0.5) / 4`.
pub open spec fn group_scale<A: Scalar>(d: A, aux_sgn: u32) -> A {
    d.times_spec(A::dyadic_spec(2 * (aux_sgn >> 28) + 1, -3))
}

/// Weight `i` of a group.
pub open spec fn group_value<A: Scalar>(
    scale: A,
    aux_idx: u32,
    aux_sgn: u32,
    grid: Seq<u8>,
    signs: Seq<u8>,
    i: int,
) -> A {
    let octet = i / 8;
    let l = i % 8;
    let key = (aux_idx >> ((octet * 8) as u32)) & 0xff;
    let mask = signs[((aux_sgn >> ((octet * 7) as u32)) & 0x7f) as int] as u32;
    scale.times_spec(
        whole::<A>(
            if mask & (1u32 << (l as u32)) != 0 {
                -1
            } else {
                1
            },
        ),
    ).times_spec(whole::<A>(grid[key * 8 + l] as int))
}

/// A little-endian word of four bytes.
pub open spec fn word_of_bytes(b: Seq<u8>, at: int) -> u32 {
    (b[at] as u32) | ((b[at + 1] as u32) << 8) | ((b[at + 2] as u32) << 16) | ((b[at + 3] as u32)
        << 24)
}

/// A little-endian word of two halves.
pub open spec fn word_of_halves(h: Seq<u16>, at: int) -> u32 {
    (h[at] as u32) | ((h[at + 1] as u32) << 16)
}

proof fn lemma_keys(w: u32, s: u32)
    by (bit_vector)
    requires
        s < 32,
    ensures
        (w >> s) & 0xff < 256,
        (w >> s) & 0x7f < 128,
        w >> 28 < 16,
        (w >> 10) & 0x1f < 32,
        w & 0x3ff < 1024,
{
}

/// Decodes weight `i` of a group.
pub(crate) fn decode<A: Scalar>(
    scale: A,
    aux_idx: u32,
    aux_sgn: u32,
    grid: &[u8],
    signs: &[u8],
    i: usize,
) -> (r: A)
    requires
        i < 32,
        grid@.len() >= 2048,
        signs@.len() >= 128,
    ensures
        r == group_value(scale, aux_idx, aux_sgn, grid@, signs@, i as int),
{
    let octet: u32 = (i / 8) as u32;
    let l: u32 = (i % 8) as u32;
    proof {
        lemma_keys(aux_idx, (octet * 8) as u32);
        lemma_keys(aux_sgn, (octet * 7) as u32);
    }
    let key: u32 = (aux_idx >> (octet * 8)) & 0xff;
    let oct: u8 = grid[(key * 8 + l) as usize];
    let mask: u32 = signs[((aux_sgn >> (octet * 7)) & 0x7f) as usize] as u32;
    let sign: i32 = if mask & (1u32 << l) != 0 {
        -1
    } else {
        1
    };
    scale.times(A::dyadic(sign as i64, 0)).times(A::dyadic(oct as i64, 0))
}

/// Decodes the scale of a group.
pub(crate) fn decode_scale<A: Scalar>(d: A, aux_sgn: u32) -> (r: A)
    ensures
        r == group_scale(d, aux_sgn),
{
    proof {
        lemma_keys(aux_sgn, 0);
    }
    d.times(A::dyadic(2 * ((aux_sgn >> 28) as i64) + 1, -3))
}

/// Decodes a half.
pub(crate) fn decode_half<A: Scalar>(bits: u32) -> (r: A)
    ensures
        r == half_value::<A>(bits),
{
    proof {
        lemma_keys(bits, 0);
    }
    let e: u32 = (bits >> 10) & 0x1f;
    let m: u32 = bits & 0x3ff;
    let sign: i32 = if bits & 0x8000 != 0 {
        -1
    } else {
        1
    };
    let mag = if e == 0 {
        A::dyadic(m as i64, -24)
    } else {
        A::dyadic(1024 + m as i64, e as i32 - 25)
    };
    A::dyadic(sign as i64, 0).times(mag)
}

/// Weight `v` of the blocks that start at byte `base`.
pub open spec fn byte_weight<A: Scalar>(
    view: Seq<u8>,
    grid: Seq<u8>,
    signs: Seq<u8>,
    base: int,
    v: int,
) -> A {
    let blk = base + v / 256 * 66;
    let q = blk + 2 + v % 256 / 32 * 8;
    let d = half_value::<A>((view[blk] as u32) | ((view[blk + 1] as u32) << 8));
    let aux_sgn = word_of_bytes(view, q + 4);
    group_value(group_scale(d, aux_sgn), word_of_bytes(view, q), aux_sgn, grid, signs, v % 32)
}

/// Weight `v` of the blocks that start at half-word `base`, their scales read from `scales`.
pub open spec fn half_weight<A: Scalar, D: Storage<A>>(
    view: Seq<u16>,
    scales: Seq<D>,
    grid: Seq<u8>,
    signs: Seq<u8>,
    base: int,
    v: int,
) -> A {
    let blk = base + v / 256 * 33;
    let q = blk + 1 + v % 256 / 32 * 4;
    let aux_sgn = word_of_halves(view, q + 2);
    group_value(
        group_scale(scales[blk].widen_spec(), aux_sgn),
        word_of_halves(view, q),
        aux_sgn,
        grid,
        signs,
        v % 32,
    )
}

/// The weights of one expert as they are staged, read from raw bytes.
#[allow(clippy::too_many_arguments)]
pub open spec fn byte_weights<A: Scalar, S: Storage<A>, T: Storage<A>>(
    view: Seq<u8>,
    grid: Seq<u8>,
    signs: Seq<u8>,
    off: int,
    stride: int,
    k_in: int,
    expert: int,
) -> spec_fn(int, int) -> A {
    |col: int, k: int|
        rounded::<A, S>(
            rounded::<A, T>(
                byte_weight::<A>(view, grid, signs, off + expert * stride, col * k_in + k),
            ),
        )
}

/// The weights of one expert as they are staged, read from raw half-words.
#[allow(clippy::too_many_arguments)]
pub open spec fn half_weights<A: Scalar, S: Storage<A>, D: Storage<A>, T: Storage<A>>(
    view: Seq<u16>,
    scales: Seq<D>,
    grid: Seq<u8>,
    signs: Seq<u8>,
    off: int,
    stride: int,
    k_in: int,
    expert: int,
) -> spec_fn(int, int) -> A {
    |col: int, k: int|
        rounded::<A, S>(
            rounded::<A, T>(
                half_weight::<A, D>(
                    view,
                    scales,
                    grid,
                    signs,
                    (off + expert * stride) / 2,
                    col * k_in + k,
                ),
            ),
        )
}

/// The outputs of routed rows over raw bytes, in steps of 16 columns.
#[allow(clippy::too_many_arguments)]
pub open spec fn byte_outputs<A: Scalar, S: Storage<A>, T: Storage<A>>(
    x: Seq<T>,
    view: Seq<u8>,
    grid: Seq<u8>,
    signs: Seq<u8>,
    indices: Seq<u32>,
    off: int,
    stride: int,
    k_in: int,
) -> spec_fn(int, int) -> T {
    |r: int, c: int|
        finished::<A, T>(
            None,
            mma_cell(
                staged_rows::<A, S, T>(x, source_rows(None), k_in),
                byte_weights::<A, S, T>(
                    view,
                    grid,
                    signs,
                    off,
                    stride,
                    k_in,
                    indices[r] as int,
                ),
                r,
                c,
                16,
                k_in / 16,
            ),
        )
}

/// The outputs of routed rows over raw half-words, in steps of 32 columns.
#[allow(clippy::too_many_arguments)]
pub open spec fn half_outputs<A: Scalar, S: Storage<A>, D: Storage<A>, T: Storage<A>>(
    x: Seq<T>,
    view: Seq<u16>,
    scales: Seq<D>,
    grid: Seq<u8>,
    signs: Seq<u8>,
    indices: Seq<u32>,
    off: int,
    stride: int,
    k_in: int,
) -> spec_fn(int, int) -> T {
    |r: int, c: int|
        finished::<A, T>(
            None,
            mma_cell(
                staged_rows::<A, S, T>(x, source_rows(None), k_in),
                half_weights::<A, S, D, T>(
                    view,
                    scales,
                    grid,
                    signs,
                    off,
                    stride,
                    k_in,
                    indices[r] as int,
                ),
                r,
                c,
                32,
                k_in / 32,
            ),
        )
}

/// The blocks of an expert of `n_out x k_in` weights.
pub open spec fn blocks(n_out: int, k_in: int) -> int {
    (n_out * k_in + 255) / 256
}

pub(crate) struct ByteTiles<'a, S, T> {
    pub x: &'a [T],
    pub view: &'a [u8],
    pub grid: &'a [u8],
    pub signs: &'a [u8],
    pub off: usize,
    pub stride: usize,
    pub n_out: usize,
    pub k_in: usize,
    pub rows: usize,
    pub stage: PhantomData<S>,
}

impl<'a, A: Scalar, S: Storage<A>, T: Storage<A>> TileSource<A> for ByteTiles<'a, S, T> {
    open spec fn ready(&self) -> bool {
        &&& self.grid@.len() >= 2048
        &&& self.signs@.len() >= 128
        &&& self.rows * self.k_in <= self.x@.len()
        &&& self.n_out * self.k_in <= usize::MAX
    }

    open spec fn depth(&self) -> int {
        self.k_in as int
    }

    open spec fn has_row(&self, row: int) -> bool {
        0 <= row < self.rows
    }

    open spec fn has_expert(&self, expert: int) -> bool {
        &&& 0 <= expert
        &&& self.off + expert * self.stride + blocks(self.n_out as int, self.k_in as int) * 66
            <= self.view@.len()
    }

    open spec fn cols(&self) -> int {
        self.n_out as int
    }

    open spec fn unit(&self) -> int {
        1
    }

    open spec fn x_at(&self) -> spec_fn(int, int) -> A {
        staged_rows::<A, S, T>(self.x@, source_rows(None), self.k_in as int)
    }

    open spec fn w_at(&self, expert: int) -> spec_fn(int, int) -> A {
        byte_weights::<A, S, T>(
            self.view@,
            self.grid@,
            self.signs@,
            self.off as int,
            self.stride as int,
            self.k_in as int,
            expert,
        )
    }

    fn x(&self, row: usize, k: usize) -> (r: A) {
        round::<A, S>(read(self.x, Ghost(self.rows as int), self.k_in, row, k).widen())
    }

    fn w(&self, expert: usize, col: usize, k0: usize, ws: &mut Vec<A>, at: usize) {
        proof {
            lemma_flat(self.n_out as int, self.k_in as int, col as int, k0 as int);
            assert(0 <= expert * self.stride) by (nonlinear_arith);
            lemma_in_block(self.n_out * self.k_in, col * self.k_in + k0);
            assert(self.view@.len() == self.view.len());
            assert(ws@.len() == ws.len());
        }
        let base: usize = self.off + expert * self.stride;
        let v: usize = col * self.k_in + k0;
        let w: A = byte_decode(self.view, self.grid, self.signs, base, v);
        ws[at] = round::<A, S>(round::<A, T>(w));
    }
}

/// Decodes weight `v` of the blocks that start at byte `base`.
fn byte_decode<A: Scalar>(view: &[u8], grid: &[u8], signs: &[u8], base: usize, v: usize) -> (r: A)
    requires
        base + (v as int / 256 + 1) * 66 <= view@.len(),
        grid@.len() >= 2048,
        signs@.len() >= 128,
    ensures
        r == byte_weight::<A>(view@, grid@, signs@, base as int, v as int),
{
    assert(view@.len() == view.len());
    let blk: usize = base + v / 256 * 66;
    let group: usize = v % 256 / 32;
    assert(group < 8);
    let d_lo: u32 = view[blk] as u32;
    let d_hi: u32 = view[blk + 1] as u32;
    let d: A = decode_half(d_lo | (d_hi << 8));
    let q: usize = blk + 2 + group * 8;
    let aux_idx: u32 = byte_word(view, q);
    let aux_sgn: u32 = byte_word(view, q + 4);
    let scale: A = decode_scale(d, aux_sgn);
    decode(scale, aux_idx, aux_sgn, grid, signs, v % 32)
}

/// Reads a little-endian word of four bytes.
fn byte_word(view: &[u8], at: usize) -> (w: u32)
    requires
        at + 4 <= view@.len(),
    ensures
        w == word_of_bytes(view@, at as int),
{
    assert(view@.len() == view.len());
    (view[at] as u32) | ((view[at + 1] as u32) << 8) | ((view[at + 2] as u32) << 16) | ((view[at
        + 3] as u32) << 24)
}

pub(crate) struct HalfTiles<'a, S, D, T> {
    pub x: &'a [T],
    pub view: &'a [u16],
    pub scales: &'a [D],
    pub grid: &'a [u8],
    pub signs: &'a [u8],
    pub off: usize,
    pub stride: usize,
    pub n_out: usize,
    pub k_in: usize,
    pub rows: usize,
    pub stage: PhantomData<S>,
}

impl<'a, A: Scalar, S: Storage<A>, D: Storage<A>, T: Storage<A>> TileSource<A> for HalfTiles<
    'a,
    S,
    D,
    T,
> {
    open spec fn ready(&self) -> bool {
        &&& self.grid@.len() >= 2048
        &&& self.signs@.len() >= 128
        &&& self.rows * self.k_in <= self.x@.len()
        &&& self.k_in as int % 32 == 0
        &&& self.n_out * self.k_in <= usize::MAX
    }

    open spec fn depth(&self) -> int {
        self.k_in as int
    }

    open spec fn has_row(&self, row: int) -> bool {
        0 <= row < self.rows
    }

    open spec fn has_expert(&self, expert: int) -> bool {
        &&& 0 <= expert
        &&& self.off + expert * self.stride <= usize::MAX
        &&& (self.off + expert * self.stride) / 2 + blocks(self.n_out as int, self.k_in as int) * 33
            <= self.view@.len()
        &&& (self.off + expert * self.stride) / 2 + blocks(self.n_out as int, self.k_in as int) * 33
            <= self.scales@.len()
    }

    open spec fn cols(&self) -> int {
        self.n_out as int
    }

    open spec fn unit(&self) -> int {
        16
    }

    open spec fn x_at(&self) -> spec_fn(int, int) -> A {
        staged_rows::<A, S, T>(self.x@, source_rows(None), self.k_in as int)
    }

    open spec fn w_at(&self, expert: int) -> spec_fn(int, int) -> A {
        half_weights::<A, S, D, T>(
            self.view@,
            self.scales@,
            self.grid@,
            self.signs@,
            self.off as int,
            self.stride as int,
            self.k_in as int,
            expert,
        )
    }

    fn x(&self, row: usize, k: usize) -> (r: A) {
        round::<A, S>(read(self.x, Ghost(self.rows as int), self.k_in, row, k).widen())
    }

    fn w(&self, expert: usize, col: usize, k0: usize, ws: &mut Vec<A>, at: usize) {
        let ghost was = ws@;
        proof {
            lemma_flat(self.n_out as int, self.k_in as int, col as int, k0 as int);
            assert(0 <= expert * self.stride) by (nonlinear_arith);
            assert(ws@.len() == ws.len());
            lemma_row_start(self.k_in as int, col as int, k0 as int);
            lemma_in_block(self.n_out * self.k_in, col * self.k_in + k0);
        }
        let base: usize = (self.off + expert * self.stride) / 2;
        let v0: usize = col * self.k_in + k0;
        let (scale, aux_idx, aux_sgn): (A, u32, u32) = half_group(self.view, self.scales, base, v0);
        let first: usize = v0 % 32;
        let mut j: usize = 0;
        while j < 16
            invariant
                j <= 16,
                self.ready(),
                v0 == col * self.k_in + k0,
                v0 % 16 == 0,
                first == v0 as int % 32,
                base == (self.off + expert * self.stride) / 2,
                is_half_group(
                    self.view@,
                    self.scales@,
                    base as int,
                    v0 as int,
                    scale,
                    aux_idx,
                    aux_sgn,
                ),
                at + 16 <= was.len() <= usize::MAX,
                ws@.len() == was.len(),
                forall|i: int|
                    0 <= i < j ==> #[trigger] ws@[at + i] == (self.w_at(expert as int))(
                        col as int,
                        k0 + i,
                    ),
                forall|i: int|
                    0 <= i < was.len() && !(at <= i < at + 16) ==> #[trigger] ws@[i] == was[i],
            decreases 16 - j,
        {
            proof {
                lemma_same_group(v0 as int, j as int);
                assert(col * self.k_in + (k0 + j) == v0 + j);
            }
            let w: A = decode(scale, aux_idx, aux_sgn, self.grid, self.signs, first + j);
            ws[at + j] = round::<A, S>(round::<A, T>(w));
            j = j + 1;
        }
    }
}

/// The scale and the two words of the group that weight `v` lies in.
pub open spec fn is_half_group<A: Scalar, D: Storage<A>>(
    view: Seq<u16>,
    scales: Seq<D>,
    base: int,
    v: int,
    scale: A,
    aux_idx: u32,
    aux_sgn: u32,
) -> bool {
    let blk = base + v / 256 * 33;
    let q = blk + 1 + v % 256 / 32 * 4;
    &&& aux_idx == word_of_halves(view, q)
    &&& aux_sgn == word_of_halves(view, q + 2)
    &&& scale == group_scale(scales[blk].widen_spec(), aux_sgn)
}

/// Reads the group that weight `v` lies in.
fn half_group<A: Scalar, D: Storage<A>>(view: &[u16], scales: &[D], base: usize, v: usize) -> (g: (
    A,
    u32,
    u32,
))
    requires
        base + (v as int / 256 + 1) * 33 <= view@.len(),
        base + (v as int / 256 + 1) * 33 <= scales@.len(),
    ensures
        is_half_group(view@, scales@, base as int, v as int, g.0, g.1, g.2),
{
    assert(view@.len() == view.len());
    let blk: usize = base + v / 256 * 33;
    let group: usize = v % 256 / 32;
    assert(group < 8);
    let q: usize = blk + 1 + group * 4;
    let d: A = scales[blk].widen();
    let aux_idx: u32 = (view[q] as u32) | ((view[q + 1] as u32) << 16);
    let aux_sgn: u32 = (view[q + 2] as u32) | ((view[q + 3] as u32) << 16);
    (decode_scale(d, aux_sgn), aux_idx, aux_sgn)
}

proof fn lemma_halves(b0: u32, b1: u32, b2: u32, b3: u32)
    by (bit_vector)
    ensures
        (b0 | (b1 << 8)) | ((b2 | (b3 << 8)) << 16) == b0 | (b1 << 8) | (b2 << 16) | (b3 << 24),
{
}

/// A block decodes alike from its bytes and from its half-words, where the half at its start
/// reads as its scale.
#[allow(clippy::too_many_arguments)]
pub proof fn law_views_decode_alike<A: Scalar, D: Storage<A>>(
    bytes: Seq<u8>,
    halves: Seq<u16>,
    scales: Seq<D>,
    grid: Seq<u8>,
    signs: Seq<u8>,
    base: int,
    v: int,
)
    requires
        base % 2 == 0,
        0 <= base,
        0 <= v,
        base + v / 256 * 66 + 66 <= bytes.len(),
        2 * halves.len() == bytes.len(),
        forall|i: int|
            0 <= i < halves.len() ==> #[trigger] halves[i] as u32 == (bytes[2 * i] as u32) | ((
            bytes[2 * i + 1] as u32) << 8),
        scales[base / 2 + v / 256 * 33].widen_spec() == half_value::<A>(
            halves[base / 2 + v / 256 * 33] as u32,
        ),
    ensures
        half_weight::<A, D>(halves, scales, grid, signs, base / 2, v) == byte_weight::<A>(
            bytes,
            grid,
            signs,
            base,
            v,
        ),
{
    let blk = base + v / 256 * 66;
    let q = blk + 2 + v % 256 / 32 * 8;
    assert(blk == 2 * (base / 2 + v / 256 * 33));
    assert(q == 2 * (base / 2 + v / 256 * 33 + 1 + v % 256 / 32 * 4));
    let h = q / 2;
    let s = halves[blk / 2];
    assert(Storage::<A>::widen_spec(scales[blk / 2]) == half_value::<A>(s as u32));
    assert(halves[h] as u32 == (bytes[q] as u32) | ((bytes[q + 1] as u32) << 8));
    assert(halves[h + 1] as u32 == (bytes[q + 2] as u32) | ((bytes[q + 3] as u32) << 8));
    assert(halves[h + 2] as u32 == (bytes[q + 4] as u32) | ((bytes[q + 5] as u32) << 8));
    assert(halves[h + 3] as u32 == (bytes[q + 6] as u32) | ((bytes[q + 7] as u32) << 8));
    lemma_halves(
        bytes[q] as u32,
        bytes[q + 1] as u32,
        bytes[q + 2] as u32,
        bytes[q + 3] as u32,
    );
    lemma_halves(
        bytes[q + 4] as u32,
        bytes[q + 5] as u32,
        bytes[q + 6] as u32,
        bytes[q + 7] as u32,
    );
}

/// In exact arithmetic an output is the plain dot product of the activations with the decoded
/// blocks.
#[allow(clippy::too_many_arguments)]
pub proof fn law_view_product_is_plain_sum<A: Scalar, S: Storage<A>, T: Storage<A>>(
    x: Seq<T>,
    view: Seq<u8>,
    grid: Seq<u8>,
    signs: Seq<u8>,
    off: int,
    stride: int,
    k_in: int,
    expert: int,
    r: int,
    c: int,
)
    requires
        lossless::<A>(),
        keeps::<A, S>(),
        keeps::<A, T>(),
        0 <= k_in,
        k_in % 16 == 0,
    ensures
        finished::<A, T>(
            None,
            mma_cell(
                staged_rows::<A, S, T>(x, source_rows(None), k_in),
                byte_weights::<A, S, T>(view, grid, signs, off, stride, k_in, expert),
                r,
                c,
                16,
                k_in / 16,
            ),
        ) == T::narrow_spec(
            plain_sum(
                k_in,
                |k: int|
                    byte_weight::<A>(
                        view,
                        grid,
                        signs,
                        off + expert * stride,
                        c * k_in + k,
                    ).times_spec(cell(x, k_in, r, k).widen_spec()),
            ),
        ),
{
    let xs = staged_rows::<A, S, T>(x, source_rows(None), k_in);
    let ws = byte_weights::<A, S, T>(view, grid, signs, off, stride, k_in, expert);
    let staged = fma_terms(xs, ws, r, c);
    let plain = |k: int|
        byte_weight::<A>(
            view,
            grid,
            signs,
            off + expert * stride,
            c * k_in + k,
        ).times_spec(cell(x, k_in, r, k).widen_spec());
    assert forall|k: int| 0 <= k < k_in implies #[trigger] staged(k) == plain(k) by {
        let v: A = cell(x, k_in, r, k).widen_spec();
        assert(rounded::<A, S>(v) == v);
        let weight = byte_weight::<A>(view, grid, signs, off + expert * stride, c * k_in + k);
        assert(rounded::<A, T>(weight) == weight);
        assert(rounded::<A, S>(weight) == weight);
    }
    law_padded_product_is_plain_sum(xs, ws, r, c, 16, k_in / 16, k_in);
    lemma_sum_same(whole(0), 0, k_in, staged, plain);
}

/// In exact arithmetic an output is the plain dot product of the activations with the blocks
/// decoded from half-words.
#[allow(clippy::too_many_arguments)]
pub proof fn law_half_product_is_plain_sum<
    A: Scalar,
    S: Storage<A>,
    D: Storage<A>,
    T: Storage<A>,
>(
    x: Seq<T>,
    view: Seq<u16>,
    scales: Seq<D>,
    grid: Seq<u8>,
    signs: Seq<u8>,
    off: int,
    stride: int,
    k_in: int,
    expert: int,
    r: int,
    c: int,
)
    requires
        lossless::<A>(),
        keeps::<A, S>(),
        keeps::<A, T>(),
        0 <= k_in,
        k_in % 32 == 0,
    ensures
        finished::<A, T>(
            None,
            mma_cell(
                staged_rows::<A, S, T>(x, source_rows(None), k_in),
                half_weights::<A, S, D, T>(view, scales, grid, signs, off, stride, k_in, expert),
                r,
                c,
                32,
                k_in / 32,
            ),
        ) == T::narrow_spec(
            plain_sum(
                k_in,
                |k: int|
                    half_weight::<A, D>(
                        view,
                        scales,
                        grid,
                        signs,
                        (off + expert * stride) / 2,
                        c * k_in + k,
                    ).times_spec(cell(x, k_in, r, k).widen_spec()),
            ),
        ),
{
    let xs = staged_rows::<A, S, T>(x, source_rows(None), k_in);
    let ws = half_weights::<A, S, D, T>(view, scales, grid, signs, off, stride, k_in, expert);
    let staged = fma_terms(xs, ws, r, c);
    let plain = |k: int|
        half_weight::<A, D>(
            view,
            scales,
            grid,
            signs,
            (off + expert * stride) / 2,
            c * k_in + k,
        ).times_spec(cell(x, k_in, r, k).widen_spec());
    assert forall|k: int| 0 <= k < k_in implies #[trigger] staged(k) == plain(k) by {
        let v: A = cell(x, k_in, r, k).widen_spec();
        assert(rounded::<A, S>(v) == v);
        let weight = half_weight::<A, D>(
            view,
            scales,
            grid,
            signs,
            (off + expert * stride) / 2,
            c * k_in + k,
        );
        assert(rounded::<A, T>(weight) == weight);
        assert(rounded::<A, S>(weight) == weight);
    }
    law_padded_product_is_plain_sum(xs, ws, r, c, 32, k_in / 32, k_in);
    lemma_sum_same(whole(0), 0, k_in, staged, plain);
}

/// A weight's block is one of its matrix's.
proof fn lemma_in_block(n: int, v: int)
    requires
        0 <= v < n,
    ensures
        0 <= v / 256,
        v / 256 + 1 <= (n + 255) / 256,
        (v / 256 + 1) * 66 <= (n + 255) / 256 * 66,
        (v / 256 + 1) * 33 <= (n + 255) / 256 * 33,
{
    lemma_fundamental_div_mod(v, 256);
    lemma_fundamental_div_mod(n + 255, 256);
}

/// Sixteen aligned weights share a group.
proof fn lemma_same_group(v0: int, j: int)
    requires
        0 <= v0,
        v0 % 16 == 0,
        0 <= j < 16,
    ensures
        (v0 + j) / 256 == v0 / 256,
        (v0 + j) % 256 / 32 == v0 % 256 / 32,
        (v0 + j) % 32 == v0 % 32 + j,
{
    let (a, r) = (v0 / 256, v0 % 256);
    let (g, s) = (r / 32, r % 32);
    lemma_fundamental_div_mod(v0, 256);
    lemma_fundamental_div_mod(r, 32);
    lemma_fundamental_div_mod(v0, 16);
    let t = v0 / 16 - 16 * a - 2 * g;
    assert(s == 16 * t);
    assert(t == 0 || t == 1);
    lemma_fundamental_div_mod_converse(v0 + j, 256, a, r + j);
    lemma_fundamental_div_mod_converse(r + j, 32, g, s + j);
    lemma_fundamental_div_mod_converse(v0 + j, 32, 8 * a + g, s + j);
    lemma_fundamental_div_mod_converse(v0, 32, 8 * a + g, s);
}

/// A multiple of 16 columns into a row of whole groups is a multiple of 16 weights in.
proof fn lemma_row_start(k_in: int, col: int, k0: int)
    requires
        0 <= col,
        0 <= k_in,
        k_in % 32 == 0,
        k0 % 16 == 0,
    ensures
        (col * k_in + k0) % 16 == 0,
        0 <= col * k_in,
{
    let (g, h) = (k_in / 32, k0 / 16);
    lemma_fundamental_div_mod(k_in, 32);
    lemma_fundamental_div_mod(k0, 16);
    assert(col * k_in == 32 * (col * g) && 0 <= col * k_in) by (nonlinear_arith)
        requires
            k_in == 32 * g,
            0 <= col,
            0 <= k_in,
    ;
    lemma_fundamental_div_mod_converse(col * k_in + k0, 16, 2 * (col * g) + h, 0);
}

/// In exact arithmetic `2^24` times a half is a whole number: a sign, five exponent digits and
/// ten mantissa digits.
pub proof fn law_half_value<A: Scalar>(bits: u32)
    requires
        lossless::<A>(),
    ensures
        ({
            let (sign, e, m) = (bits / 32768 % 2, bits / 1024 % 32, bits % 1024);
            let mag = if e == 0 {
                m as int
            } else {
                (1024 + m) * (pow2((e - 1) as nat) as int)
            };
            whole::<A>(16777216).times_spec(half_value(bits)) == whole::<A>(
                if sign == 1 {
                    -mag
                } else {
                    mag
                },
            )
        }),
{
    assert(bits & 0x3ff == bits % 1024 && (bits >> 10) & 0x1f == bits / 1024 % 32 && (bits & 0x8000
        != 0) == (bits / 32768 % 2 == 1)) by (bit_vector);
    lemma2_to64();
    let (e, m) = (bits / 1024 % 32, bits % 1024);
    let mag = if e == 0 {
        m as int
    } else {
        (1024 + m) * (pow2((e - 1) as nat) as int)
    };
    if e > 0 {
        lemma_shifted::<A>(1024 + m, (e - 1) as nat, -24);
    }
    let sign: int = if bits & 0x8000 != 0 {
        -1
    } else {
        1
    };
    dyadic_times::<A>(sign, 0, mag, -24);
    let value = sign * mag;
    dyadic_times::<A>(16777216, 0, value, -24);
    lemma_shifted::<A>(value, 24, -24);
    assert(16777216 * value == value * 16777216);
    assert(sign == -1 ==> value == -mag);
    assert(sign == 1 ==> value == mag);
}

/// In exact arithmetic the high byte of a half is an E5M2 code of the same value, as long as
/// the low byte is zero and the exponent is not the last.
pub proof fn law_halves_extend_e5m2<A: Scalar>(code: u32)
    requires
        lossless::<A>(),
        code < 256,
        code / 4 % 32 < 31,
    ensures
        whole::<A>(16777216).times_spec(half_value::<A>((code * 256) as u32)) == whole::<A>(
            16777216,
        ).times_spec(e5m2(code)),
{
    let bits = (code * 256) as u32;
    assert(bits / 32768 % 2 == code / 128 % 2);
    assert(bits / 1024 % 32 == code / 4 % 32);
    assert(bits % 1024 == (code % 4) * 256);
    law_half_value::<A>(bits);
    law_e5m2_value::<A>(code);
    let (e, m) = (code / 4 % 32, code % 4);
    let p = pow2((e - 1) as nat) as int;
    let small = if e == 0 {
        m as int
    } else {
        (4 + m) * p
    };
    let n = if code / 128 % 2 == 1 {
        -small
    } else {
        small
    };
    assert((1024 + m * 256) * p == 256 * ((4 + m) * p)) by (nonlinear_arith);
    dyadic_times::<A>(256, 0, 65536, 0);
    times_assoc(whole(256), whole(65536), e5m2::<A>(code));
    dyadic_times::<A>(256, 0, n, 0);
    assert(256 * -small == -(256 * small));
}

/// In exact arithmetic eight times weight `8 * o + l` of a group is the block's scale times a
/// whole number: twice the scale digits and one, times entry `l` of the grid row that the
/// `o`-th key names, negative where digit `l` of the `o`-th sign row is set. Grid keys are
/// eight digits of the first word, sign keys seven digits of the second, and the scale its
/// last four.
pub proof fn law_group_value<A: Scalar>(
    d: A,
    aux_idx: u32,
    aux_sgn: u32,
    grid: Seq<u8>,
    signs: Seq<u8>,
    o: int,
    l: int,
)
    requires
        lossless::<A>(),
        0 <= o < 4,
        0 <= l < 8,
    ensures
        ({
            let key = digits(aux_idx as int, 8 * o, 8);
            let mask = signs[digits(aux_sgn as int, 7 * o, 7)] as int;
            let level = grid[key * 8 + l] as int;
            let size = (2 * (aux_sgn as int / 268435456) + 1) * level;
            whole::<A>(8).times_spec(
                group_value(group_scale(d, aux_sgn), aux_idx, aux_sgn, grid, signs, o * 8 + l),
            ) == d.times_spec(
                whole(
                    if digits(mask, l, 1) == 1 {
                        -size
                    } else {
                        size
                    },
                ),
            )
        }),
{
    let i = o * 8 + l;
    assert(i / 8 == o && i % 8 == l);
    lemma_digits(aux_idx, 8 * o);
    lemma_digits(aux_sgn, 7 * o);
    lemma_u32_shr_is_div(aux_sgn, 28);
    lemma2_to64();
    let key = digits(aux_idx as int, 8 * o, 8);
    let mask = signs[digits(aux_sgn as int, 7 * o, 7)];
    lemma_digits(mask as u32, l);
    lemma_mask_digit(mask as u32, l as u32);
    let level = grid[key * 8 + l] as int;
    let s = 2 * (aux_sgn as int / 268435456) + 1;
    let sign: int = if digits(mask as int, l, 1) == 1 {
        -1
    } else {
        1
    };
    let (a, b, c): (A, A, A) = (A::dyadic_spec(s, -3), whole(sign), whole(level));
    let eight: A = whole(8);
    times_assoc(d, a, b);
    times_assoc(d, a.times_spec(b), c);
    dyadic_times::<A>(s, -3, sign, 0);
    dyadic_times::<A>(s * sign, -3, level, 0);
    let n = s * sign * level;
    let v: A = A::dyadic_spec(n, -3);
    times_assoc(eight, d, v);
    times_comm(eight, d);
    times_assoc(d, eight, v);
    dyadic_times::<A>(8, 0, n, -3);
    lemma_shifted::<A>(n, 3, -3);
    assert(8 * n == n * 8);
    assert(s * 1 * level == s * level && s * -1 * level == -(s * level)) by (nonlinear_arith);
}

/// A mask's digit is set where the shifted one meets it.
proof fn lemma_mask_digit(mask: u32, l: u32)
    by (bit_vector)
    requires
        l < 8,
    ensures
        (mask & (1u32 << l) != 0) == ((mask >> l) & 1 == 1),
{
}

/// In exact arithmetic eight times weight `256 * b + 32 * g + 8 * o + l` of raw blocks: a
/// block is 66 bytes, its scale a half in the first two; group `g` has its grid keys in four
/// bytes and its signs and scale in the next four.
pub proof fn law_byte_weight<A: Scalar>(
    view: Seq<u8>,
    grid: Seq<u8>,
    signs: Seq<u8>,
    base: int,
    b: int,
    g: int,
    o: int,
    l: int,
)
    requires
        lossless::<A>(),
        0 <= b,
        0 <= g < 8,
        0 <= o < 4,
        0 <= l < 8,
    ensures
        ({
            let at = base + b * 66;
            let q = at + 2 + g * 8;
            let key = view[q + o] as int;
            let word = view[q + 4] + 256 * view[q + 5] + 65536 * view[q + 6] + 16777216 * view[q
                + 7];
            let mask = signs[digits(word, 7 * o, 7)] as int;
            let size = (2 * (word / 268435456) + 1) * grid[key * 8 + l];
            whole::<A>(8).times_spec(
                byte_weight::<A>(view, grid, signs, base, b * 256 + g * 32 + o * 8 + l),
            ) == half_value::<A>((view[at] + 256 * view[at + 1]) as u32).times_spec(
                whole(
                    if digits(mask, l, 1) == 1 {
                        -size
                    } else {
                        size
                    },
                ),
            )
        }),
{
    let v = b * 256 + g * 32 + o * 8 + l;
    let at = base + b * 66;
    let q = at + 2 + g * 8;
    lemma_weight_place(b, g, o * 8 + l);
    let aux_idx = word_of_bytes(view, q);
    let aux_sgn = word_of_bytes(view, q + 4);
    lemma_word_bytes(view, q, o);
    lemma_word_bytes(view, q + 4, o);
    let (lo, hi) = (view[at] as u32, view[at + 1] as u32);
    lemma_packed(lo, hi, 0, 0);
    assert(lo | (hi << 8) == lo | (hi << 8) | (0u32 << 16) | (0u32 << 24)) by (bit_vector);
    assert(byte_weight::<A>(view, grid, signs, base, v) == group_value(
        group_scale(half_value::<A>(lo | (hi << 8)), aux_sgn),
        aux_idx,
        aux_sgn,
        grid,
        signs,
        o * 8 + l,
    ));
    law_group_value::<A>(
        half_value((lo | (hi << 8))),
        aux_idx,
        aux_sgn,
        grid,
        signs,
        o,
        l,
    );
}

/// Where weight `i` of group `g` of block `b` lies.
pub(crate) proof fn lemma_weight_place(b: int, g: int, i: int)
    requires
        0 <= b,
        0 <= g < 8,
        0 <= i < 32,
    ensures
        ({
            let v = b * 256 + g * 32 + i;
            &&& v / 256 == b
            &&& v % 256 / 32 == g
            &&& v % 32 == i
        }),
{
    let v = b * 256 + g * 32 + i;
    lemma_fundamental_div_mod_converse(v, 256, b, g * 32 + i);
    lemma_fundamental_div_mod_converse(g * 32 + i, 32, g, i);
    lemma_fundamental_div_mod_converse(v, 32, b * 8 + g, i);
}

/// The value and the bytes of a little-endian word.
proof fn lemma_word_bytes(view: Seq<u8>, q: int, o: int)
    requires
        0 <= o < 4,
    ensures
        word_of_bytes(view, q) == view[q] + 256 * view[q + 1] + 65536 * view[q + 2] + 16777216
            * view[q + 3],
        digits(word_of_bytes(view, q) as int, 8 * o, 8) == view[q + o],
{
    let (k0, k1, k2, k3) = (
        view[q] as int,
        view[q + 1] as int,
        view[q + 2] as int,
        view[q + 3] as int,
    );
    lemma_packed(view[q] as u32, view[q + 1] as u32, view[q + 2] as u32, view[q + 3] as u32);
    lemma2_to64();
    let n = k0 + 256 * k1 + 65536 * k2 + 16777216 * k3;
    if o == 0 {
        assert(pow2((8 * o) as nat) == 1);
        lemma_fundamental_div_mod_converse(n, 256, k1 + 256 * k2 + 65536 * k3, k0);
    } else if o == 1 {
        assert(pow2((8 * o) as nat) == 256);
        lemma_fundamental_div_mod_converse(n, 256, k1 + 256 * k2 + 65536 * k3, k0);
        lemma_fundamental_div_mod_converse(k1 + 256 * k2 + 65536 * k3, 256, k2 + 256 * k3, k1);
    } else if o == 2 {
        assert(pow2((8 * o) as nat) == 65536);
        lemma_fundamental_div_mod_converse(n, 65536, k2 + 256 * k3, k0 + 256 * k1);
        lemma_fundamental_div_mod_converse(k2 + 256 * k3, 256, k3, k2);
    } else {
        assert(pow2((8 * o) as nat) == 16777216);
        lemma_fundamental_div_mod_converse(n, 16777216, k3, k0 + 256 * k1 + 65536 * k2);
        lemma_fundamental_div_mod_converse(k3, 256, 0, k3);
    }
}

/// In exact arithmetic eight times weight `256 * b + 32 * g + 8 * o + l` of raw half-words: a
/// block is 33 of them, its scale read at the first; group `g` has its grid keys in two and
/// its signs and scale in the next two.
#[allow(clippy::too_many_arguments)]
pub proof fn law_half_weight<A: Scalar, D: Storage<A>>(
    view: Seq<u16>,
    scales: Seq<D>,
    grid: Seq<u8>,
    signs: Seq<u8>,
    base: int,
    b: int,
    g: int,
    o: int,
    l: int,
)
    requires
        lossless::<A>(),
        0 <= b,
        0 <= g < 8,
        0 <= o < 4,
        0 <= l < 8,
    ensures
        ({
            let at = base + b * 33;
            let q = at + 1 + g * 4;
            let key = digits(view[q] + 65536 * view[q + 1], 8 * o, 8);
            let word = view[q + 2] + 65536 * view[q + 3];
            let mask = signs[digits(word, 7 * o, 7)] as int;
            let size = (2 * (word / 268435456) + 1) * grid[key * 8 + l];
            whole::<A>(8).times_spec(
                half_weight::<A, D>(
                    view,
                    scales,
                    grid,
                    signs,
                    base,
                    b * 256 + g * 32 + o * 8 + l,
                ),
            ) == scales[at].widen_spec().times_spec(
                whole(
                    if digits(mask, l, 1) == 1 {
                        -size
                    } else {
                        size
                    },
                ),
            )
        }),
{
    let v = b * 256 + g * 32 + o * 8 + l;
    let at = base + b * 33;
    let q = at + 1 + g * 4;
    lemma_weight_place(b, g, o * 8 + l);
    lemma_joined_halves(view[q] as u32, view[q + 1] as u32);
    lemma_joined_halves(view[q + 2] as u32, view[q + 3] as u32);
    let aux_idx = word_of_halves(view, q);
    let aux_sgn = word_of_halves(view, q + 2);
    let d: A = scales[at].widen_spec();
    assert(half_weight::<A, D>(view, scales, grid, signs, base, v) == group_value(
        group_scale(d, aux_sgn),
        aux_idx,
        aux_sgn,
        grid,
        signs,
        o * 8 + l,
    ));
    law_group_value::<A>(d, aux_idx, aux_sgn, grid, signs, o, l);
}

proof fn lemma_joined_halves(lo: u32, hi: u32)
    by (bit_vector)
    requires
        lo < 65536,
        hi < 65536,
    ensures
        lo | (hi << 16) == lo + 65536 * hi,
{
}

} // verus!
