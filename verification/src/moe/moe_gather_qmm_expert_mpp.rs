//! Expert-aligned NVFP4 gather product: one threadgroup per 64-column tile and expert.
//!
//! Each threadgroup bisects the sorted `indices` for its expert's rows and walks them 64 at
//! a time. Activations go into the product as they are; only the weights are staged under a
//! factor of `2^-14`, and the accumulators are multiplied by `2^14` when they are stored.
use crate::exact::{
    dyadic_times, keeps, law_tiled_product_is_plain_sum, lossless, negated_times, plain_sum,
    times_assoc, times_comm, times_one,
};
use crate::gemm::dequant_gemv::lemma_group_in;
use crate::moe::gather::{ascending, expert_grid, finished};
use crate::moe::nvfp4::{
    lemma_compensated, lemma_factors, lemma_row_bound, lemma_stack, lemma_steps,
    nvfp4_code, nvfp4_fits, nvfp4_terms,
};
use crate::primitives::{e2m1, e2m1_halves, e4m3, iron_decode_e4m3, signed};
use crate::scalar::{round, rounded, whole, Scalar, Storage};
use crate::tensor::{cell, read};
use crate::tile::{fma_terms, mma_cell, Shape, TileSource};
use std::marker::PhantomData;
use vstd::prelude::*;

verus! {

/// Twice the value of an E2M1 code.
pub open spec fn doubled_e2m1<A: Scalar>(code: u32) -> A {
    signed(code & 8 != 0, whole(e2m1_halves(code)))
}

/// The factor on every scale: `global * 2^-14`, halved for the doubled codes.
pub open spec fn scale_fold<A: Scalar>(global: A) -> A {
    global.times_spec(A::dyadic_spec(1, -14)).times_spec(A::dyadic_spec(1, -1))
}

/// The weights of one expert as they are staged through `H`, each under the scale of its
/// block.
pub open spec fn folded_weights<A: Scalar, H: Storage<A>>(
    w: Seq<u32>,
    scales: Seq<u8>,
    global: A,
    n_out: int,
    k_in: int,
    block_size: int,
    expert: int,
) -> spec_fn(int, int) -> A {
    |col: int, k: int|
        rounded::<A, H>(
            doubled_e2m1::<A>(nvfp4_code(w, n_out, k_in, expert, col, k)).times_spec(
                e4m3::<A>(
                    cell(
                        scales,
                        k_in / block_size,
                        expert * n_out + col,
                        k / block_size,
                    ) as u32,
                ).times_spec(scale_fold(global)),
            ),
        )
}

/// Activations as they are.
pub open spec fn plain_rows<A: Scalar, X: Storage<A>>(x: Seq<X>, k_in: int) -> spec_fn(
    int,
    int,
) -> A {
    |r: int, k: int| cell(x, k_in, r, k).widen_spec()
}

pub(crate) struct ExpertTiles<'a, A, H, X> {
    pub x: &'a [X],
    pub w: &'a [u32],
    pub scales: &'a [u8],
    pub global: A,
    pub fold: A,
    pub n_out: usize,
    pub k_in: usize,
    pub block_size: usize,
    pub rows: usize,
    pub stage: PhantomData<H>,
}

/// The shift form of the E2M1 decode gives twice the magnitude.
proof fn lemma_shift_decode(nib: u32)
    by (bit_vector)
    requires
        nib < 16,
    ensures
        ({
            let m = nib & 7;
            let v = (((2 + (nib & 1)) as u32) << (m >> 1)) >> 1;
            &&& m < 8
            &&& m == 1 ==> v == 1
            &&& m == 2 ==> v == 2
            &&& m == 3 ==> v == 3
            &&& m == 4 ==> v == 4
            &&& m == 5 ==> v == 6
            &&& m == 6 ==> v == 8
            &&& m == 7 ==> v == 12
            &&& (nib & 1) <= 1
            &&& (m >> 1) < 4
        }),
{
}

/// Decodes an E2M1 code to twice its value.
fn decode_doubled<A: Scalar>(nib: u32) -> (r: A)
    requires
        nib < 16,
    ensures
        r == doubled_e2m1::<A>(nib),
{
    proof {
        lemma_shift_decode(nib);
    }
    let m: u32 = nib & 7;
    let v: u32 = ((2 + (nib & 1)) << (m >> 1)) >> 1;
    let v: u32 = if m == 0 {
        0
    } else {
        v
    };
    let mag = A::dyadic(v as i64, 0);
    if nib & 8 != 0 {
        mag.negated()
    } else {
        mag
    }
}

/// Reads the code at `(row, k)`.
fn nibble(w: &[u32], rows: Ghost<int>, k_in: usize, row: usize, k: usize) -> (nib: u32)
    requires
        k_in % 8 == 0,
        k < k_in,
        row < rows@,
        rows@ * (k_in as int / 8) <= w@.len(),
    ensures
        nib == (cell(w@, k_in as int / 8, row as int, k as int / 8) >> (((k % 8) * 4) as u32)) & 15,
        nib < 16,
{
    let packed: u32 = read(w, rows, k_in / 8, row, k / 8);
    let shifted: u32 = packed >> (((k % 8) * 4) as u32);
    assert(shifted & 15 < 16) by (bit_vector);
    shifted & 15
}

impl<'a, A: Scalar, H: Storage<A>, X: Storage<A>> TileSource<A> for ExpertTiles<'a, A, H, X> {
    open spec fn ready(&self) -> bool {
        &&& self.block_size > 0
        &&& self.k_in as int % 16 == 0
        &&& self.k_in as int % self.block_size as int == 0
        &&& self.rows * self.k_in <= self.x@.len()
        &&& self.fold == scale_fold(self.global)
    }

    open spec fn depth(&self) -> int {
        self.k_in as int
    }

    open spec fn has_row(&self, row: int) -> bool {
        0 <= row < self.rows
    }

    open spec fn has_expert(&self, expert: int) -> bool {
        &&& 0 <= expert
        &&& nvfp4_fits(
            self.w@,
            self.scales@,
            self.n_out as int,
            self.k_in as int,
            self.block_size as int,
            expert + 1,
        )
    }

    open spec fn cols(&self) -> int {
        self.n_out as int
    }

    open spec fn unit(&self) -> int {
        16
    }

    open spec fn x_at(&self) -> spec_fn(int, int) -> A {
        plain_rows::<A, X>(self.x@, self.k_in as int)
    }

    open spec fn w_at(&self, expert: int) -> spec_fn(int, int) -> A {
        folded_weights::<A, H>(
            self.w@,
            self.scales@,
            self.global,
            self.n_out as int,
            self.k_in as int,
            self.block_size as int,
            expert,
        )
    }

    fn x(&self, row: usize, k: usize) -> (r: A) {
        read(self.x, Ghost(self.rows as int), self.k_in, row, k).widen()
    }

    fn w(&self, expert: usize, col: usize, k0: usize, ws: &mut Vec<A>, at: usize) {
        let ghost stack = (expert + 1) * self.n_out;
        proof {
            lemma_stack(expert as int, self.n_out as int, col as int);
            lemma_row_bound(stack, self.k_in as int / 8, self.w@.len() as int);
            assert(self.w@.len() == self.w.len());
            assert(ws@.len() == ws.len());
        }
        let row: usize = expert * self.n_out + col;
        let ghost was = ws@;
        let mut j: usize = 0;
        while j < 16
            invariant
                j <= 16,
                self.k_in % 8 == 0,
                stack * (self.k_in as int / 8) <= self.w@.len(),
                k0 % 16 == 0,
                k0 + 16 <= self.k_in,
                at + 16 <= was.len(),
                was.len() <= usize::MAX,
                ws@.len() == was.len(),
                row == expert * self.n_out + col,
                row < stack,
                self.ready(),
                stack * (self.k_in as int / self.block_size as int) <= self.scales@.len(),
                forall|i: int|
                    0 <= i < j ==> #[trigger] ws@[at + i] == (self.w_at(expert as int))(
                        col as int,
                        k0 + i,
                    ),
                forall|i: int|
                    0 <= i < was.len() && !(at <= i < at + 16) ==> #[trigger] ws@[i] == was[i],
            decreases 16 - j,
        {
            let nib: u32 = nibble(self.w, Ghost(stack), self.k_in, row, k0 + j);
            proof {
                lemma_group_in(self.k_in as int, self.block_size as int, k0 + j);
            }
            let sraw: u8 = read(
                self.scales,
                Ghost(stack),
                self.k_in / self.block_size,
                row,
                (k0 + j) / self.block_size,
            );
            let scale: A = iron_decode_e4m3::<A>(sraw as u32).times(self.fold);
            ws[at + j] = round::<A, H>(decode_doubled::<A>(nib).times(scale));
            j = j + 1;
        }
    }
}

/// `out[r, c] = x[r] . W[indices[r], c]` over sorted `indices`, with tiles of 64 x 64 split
/// among four simdgroups of 32 x 32. `x` is read as `X`, weights are staged through `H`.
/// The grid is `[n_out / 64, n_experts]`; rows of experts past it are left alone.
#[allow(clippy::too_many_arguments)]
pub fn iron_nvfp4_moe_gather_qmm_expert_mpp<
    A: Scalar,
    H: Storage<A>,
    X: Storage<A>,
    T: Storage<A>,
>(
    x: &[X],
    w: &[u32],
    scales: &[u8],
    indices: &[u32],
    out: &mut Vec<T>,
    m_total: u32,
    n_out: u32,
    k_in: u32,
    block_size: u32,
    global: A,
    n_experts: u32,
)
    requires
        expert_launch(x@, w@, scales@, indices@, m_total, n_out, k_in, block_size, n_experts),
        m_total * n_out <= old(out)@.len(),
    ensures
        expert_products::<A, H, X, T>(
            x@,
            w@,
            scales@,
            indices@,
            old(out)@,
            final(out)@,
            m_total as int,
            n_out as int,
            k_in as int,
            block_size as int,
            global,
            n_experts as int,
        ),
{
    let shape = Shape { bm: 64, bn: 64, bk: 32, sm: 32, sn: 32 };
    launch::<A, H, X, T>(
        &shape,
        x,
        w,
        scales,
        indices,
        out,
        m_total,
        n_out,
        k_in,
        block_size,
        global,
        n_experts,
    )
}

/// What a launch asks of its buffers.
#[allow(clippy::too_many_arguments)]
pub open spec fn expert_launch<X>(
    x: Seq<X>,
    w: Seq<u32>,
    scales: Seq<u8>,
    indices: Seq<u32>,
    m_total: u32,
    n_out: u32,
    k_in: u32,
    block_size: u32,
    n_experts: u32,
) -> bool {
    &&& k_in % 32 == 0
    &&& n_out % 64 == 0
    &&& block_size > 0
    &&& k_in as int % block_size as int == 0
    &&& m_total * k_in <= x.len()
    &&& m_total <= indices.len()
    &&& ascending(indices, m_total as int)
    &&& nvfp4_fits(w, scales, n_out as int, k_in as int, block_size as int, n_experts as int)
    &&& m_total <= u32::MAX - 256
}

/// What a launch leaves in `out`.
#[allow(clippy::too_many_arguments)]
pub open spec fn expert_products<A: Scalar, H: Storage<A>, X: Storage<A>, T: Storage<A>>(
    x: Seq<X>,
    w: Seq<u32>,
    scales: Seq<u8>,
    indices: Seq<u32>,
    before: Seq<T>,
    out: Seq<T>,
    m_total: int,
    n_out: int,
    k_in: int,
    block_size: int,
    global: A,
    n_experts: int,
) -> bool {
    &&& out.len() == before.len()
    &&& forall|i: int| m_total * n_out <= i < before.len() ==> #[trigger] out[i] == before[i]
    &&& forall|r: int, c: int|
        0 <= r < m_total && 0 <= c < n_out ==> #[trigger] cell(out, n_out, r, c) == (if indices[r]
            < n_experts {
            finished::<A, T>(
                Some(A::dyadic_spec(1, 14)),
                mma_cell(
                    plain_rows::<A, X>(x, k_in),
                    folded_weights::<A, H>(
                        w,
                        scales,
                        global,
                        n_out,
                        k_in,
                        block_size,
                        indices[r] as int,
                    ),
                    r,
                    c,
                    32,
                    k_in / 32,
                ),
            )
        } else {
            cell(before, n_out, r, c)
        })
}

/// Runs a launch with the given tile shape.
#[allow(clippy::too_many_arguments)]
pub(crate) fn launch<A: Scalar, H: Storage<A>, X: Storage<A>, T: Storage<A>>(
    shape: &Shape,
    x: &[X],
    w: &[u32],
    scales: &[u8],
    indices: &[u32],
    out: &mut Vec<T>,
    m_total: u32,
    n_out: u32,
    k_in: u32,
    block_size: u32,
    global: A,
    n_experts: u32,
)
    requires
        shape.wf(),
        shape.bn == 64,
        shape.bk == 32,
        expert_launch(x@, w@, scales@, indices@, m_total, n_out, k_in, block_size, n_experts),
        m_total * n_out <= old(out)@.len(),
    ensures
        expert_products::<A, H, X, T>(
            x@,
            w@,
            scales@,
            indices@,
            old(out)@,
            final(out)@,
            m_total as int,
            n_out as int,
            k_in as int,
            block_size as int,
            global,
            n_experts as int,
        ),
{
    let fold: A = global.times(A::dyadic(1, -14)).times(A::dyadic(1, -1));
    let stage: PhantomData<H> = PhantomData;
    let src = ExpertTiles {
        x,
        w,
        scales,
        global,
        fold,
        n_out: n_out as usize,
        k_in: k_in as usize,
        block_size: block_size as usize,
        rows: m_total as usize,
        stage,
    };
    proof {
        assert forall|e: int| 0 <= e < n_experts implies #[trigger] src.has_expert(e) by {
            lemma_fewer(e + 1, n_experts as int, n_out as int, k_in as int / 8);
            lemma_fewer(
                e + 1,
                n_experts as int,
                n_out as int,
                k_in as int / block_size as int,
            );
        }
    }
    expert_grid::<A, T, ExpertTiles<A, H, X>>(
        &src,
        shape,
        indices,
        out,
        m_total as usize,
        n_out as usize,
        n_experts,
        16,
        k_in as usize,
        Some(A::dyadic(1, 14)),
        false,
    );
}

/// A doubled code under a halved scale is the code under the scale.
pub(crate) proof fn lemma_doubled<A: Scalar>(code: u32, s: A, global: A)
    requires
        lossless::<A>(),
    ensures
        doubled_e2m1::<A>(code).times_spec(s.times_spec(scale_fold(global))) == e2m1::<
            A,
        >(code).times_spec(s.times_spec(global).times_spec(A::dyadic_spec(1, -14))),
{
    let (b, h): (A, A) = (A::dyadic_spec(1, -14), A::dyadic_spec(1, -1));
    let d = doubled_e2m1::<A>(code);
    let q = s.times_spec(global).times_spec(b);
    times_assoc(s, global.times_spec(b), h);
    times_assoc(s, global, b);
    times_comm(q, h);
    times_assoc(d, h, q);
    let halves = e2m1_halves(code);
    dyadic_times::<A>(halves, 0, 1, -1);
    negated_times(whole::<A>(halves), h);
    assert(d.times_spec(h) == e2m1::<A>(code));
}

/// In exact arithmetic the factor of `2^-14` on the weights and the factor of `2^14` on the
/// accumulators cancel: an output is the plain dot product of the activations with the decoded
/// weights.
#[allow(clippy::too_many_arguments)]
pub proof fn law_folded_product_is_plain_sum<
    A: Scalar,
    H: Storage<A>,
    X: Storage<A>,
    T: Storage<A>,
>(
    x: Seq<X>,
    w: Seq<u32>,
    scales: Seq<u8>,
    global: A,
    n_out: int,
    k_in: int,
    block_size: int,
    expert: int,
    r: int,
    c: int,
)
    requires
        lossless::<A>(),
        keeps::<A, H>(),
        0 < block_size,
        0 <= k_in,
        k_in % 32 == 0,
    ensures
        finished::<A, T>(
            Some(A::dyadic_spec(1, 14)),
            mma_cell(
                plain_rows::<A, X>(x, k_in),
                folded_weights::<A, H>(w, scales, global, n_out, k_in, block_size, expert),
                r,
                c,
                32,
                k_in / 32,
            ),
        ) == T::narrow_spec(
            plain_sum(
                k_in,
                nvfp4_terms::<A, X>(
                    x,
                    w,
                    scales,
                    global,
                    n_out,
                    k_in,
                    block_size,
                    expert,
                    r,
                    c,
                ),
            ),
        ),
{
    let bias: A = A::dyadic_spec(1, -14);
    let xs = plain_rows::<A, X>(x, k_in);
    let ws = folded_weights::<A, H>(w, scales, global, n_out, k_in, block_size, expert);
    let staged = fma_terms(xs, ws, r, c);
    let plain = nvfp4_terms::<A, X>(
        x,
        w,
        scales,
        global,
        n_out,
        k_in,
        block_size,
        expert,
        r,
        c,
    );
    lemma_steps(k_in, 32);
    law_tiled_product_is_plain_sum(xs, ws, r, c, 32, k_in / 32);
    assert forall|k: int| 0 <= k < k_in implies #[trigger] staged(k) == bias.times_spec(
        plain(k),
    ) by {
        let code = nvfp4_code(w, n_out, k_in, expert, c, k);
        let s: A = e4m3(
            cell(scales, k_in / block_size, expert * n_out + c, k / block_size) as u32,
        );
        let v: A = cell(x, k_in, r, k).widen_spec();
        let weight = doubled_e2m1::<A>(code).times_spec(s.times_spec(scale_fold(global)));
        assert(rounded::<A, H>(weight) == weight);
        lemma_doubled(code, s, global);
        lemma_factors(e2m1::<A>(code), s.times_spec(global), v, bias, whole(1));
        times_one(v);
        times_one(bias);
    }
    lemma_compensated(14, k_in, plain, staged);
}

/// Fewer experts take less room.
pub(crate) proof fn lemma_fewer(fewer: int, more: int, n_out: int, per_row: int)
    requires
        0 <= fewer <= more,
        0 <= n_out,
        0 <= per_row,
    ensures
        fewer * n_out * per_row <= more * n_out * per_row,
{
    assert(fewer * n_out <= more * n_out) by (nonlinear_arith)
        requires
            0 <= fewer <= more,
            0 <= n_out,
    ;
    assert(fewer * n_out * per_row <= more * n_out * per_row) by (nonlinear_arith)
        requires
            fewer * n_out <= more * n_out,
            0 <= per_row,
    ;
}

} // verus!
