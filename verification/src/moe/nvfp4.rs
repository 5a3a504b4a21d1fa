//! NVFP4 expert weights: E2M1 codes, eight to a word, under one E4M3 scale per block and one
//! factor for the whole matrix.
use crate::exact::{
    dyadic_times, keeps, law_tiled_product_is_plain_sum, lemma_sum_factor, lossless, plain_sum,
    times_assoc, times_comm, times_one,
};
use crate::gemm::dequant_gemv::lemma_group_in;
use crate::moe::gather::finished;
use crate::primitives::{e2m1, e4m3, iron_decode_e2m1, iron_decode_e4m3};
use crate::scalar::{round, rounded, Scalar, Storage};
use crate::tensor::{cell, lemma_flat, read};
use crate::tile::{fma_terms, mma_cell, TileSource};
use std::marker::PhantomData;
use vstd::prelude::*;

verus! {

/// The code at column `k` of row `col` of expert `expert`.
pub open spec fn nvfp4_code(
    w: Seq<u32>,
    n_out: int,
    k_in: int,
    expert: int,
    col: int,
    k: int,
) -> u32 {
    (cell(w, k_in / 8, expert * n_out + col, k / 8) >> (((k % 8) * 4) as u32)) & 15
}

/// The scale of the block that column `k` lies in.
pub open spec fn nvfp4_scale<A: Scalar>(
    scales: Seq<u8>,
    n_out: int,
    k_in: int,
    block_size: int,
    expert: int,
    col: int,
    k: int,
) -> A {
    e4m3(cell(scales, k_in / block_size, expert * n_out + col, k / block_size) as u32)
}

/// The weights of one expert as they are staged: `code * (scale * global * bias)`, rounded.
#[allow(clippy::too_many_arguments)]
pub open spec fn nvfp4_weights<A: Scalar, S: Storage<A>>(
    w: Seq<u32>,
    scales: Seq<u8>,
    global: A,
    bias: A,
    n_out: int,
    k_in: int,
    block_size: int,
    expert: int,
) -> spec_fn(int, int) -> A {
    |col: int, k: int|
        rounded::<A, S>(
            e2m1::<A>(nvfp4_code(w, n_out, k_in, expert, col, k)).times_spec(
                nvfp4_scale::<A>(
                    scales,
                    n_out,
                    k_in,
                    block_size,
                    expert,
                    col,
                    k,
                ).times_spec(global).times_spec(bias),
            ),
        )
}

/// The products that make up one output: column `k` contributes
/// `(code * (scale * global)) * x[r, k]`, with the scale of its own block.
#[allow(clippy::too_many_arguments)]
pub open spec fn nvfp4_terms<A: Scalar, X: Storage<A>>(
    x: Seq<X>,
    w: Seq<u32>,
    scales: Seq<u8>,
    global: A,
    n_out: int,
    k_in: int,
    block_size: int,
    expert: int,
    r: int,
    c: int,
) -> spec_fn(int) -> A {
    |k: int|
        e2m1::<A>(nvfp4_code(w, n_out, k_in, expert, c, k)).times_spec(
            e4m3::<A>(
                cell(scales, k_in / block_size, expert * n_out + c, k / block_size) as u32,
            ).times_spec(global),
        ).times_spec(cell(x, k_in, r, k).widen_spec())
}

/// Activations as they are staged: times `bias`, rounded.
pub open spec fn biased_rows<A: Scalar, S: Storage<A>, T: Storage<A>>(
    x: Seq<T>,
    bias: A,
    k_in: int,
) -> spec_fn(int, int) -> A {
    |r: int, k: int| rounded::<A, S>(cell(x, k_in, r, k).widen_spec().times_spec(bias))
}

/// The outputs of routed rows, in steps of 32 columns: activations and weights staged under a
/// factor of `2^-14`, accumulators stored under one of `2^28`.
#[allow(clippy::too_many_arguments)]
pub open spec fn nvfp4_outputs<A: Scalar, S: Storage<A>, T: Storage<A>>(
    x: Seq<T>,
    w: Seq<u32>,
    scales: Seq<u8>,
    indices: Seq<u32>,
    global: A,
    n_out: int,
    k_in: int,
    block_size: int,
) -> spec_fn(int, int) -> T {
    |r: int, c: int|
        finished::<A, T>(
            Some(A::dyadic_spec(1, 28)),
            mma_cell(
                biased_rows::<A, S, T>(x, A::dyadic_spec(1, -14), k_in),
                nvfp4_weights::<A, S>(
                    w,
                    scales,
                    global,
                    A::dyadic_spec(1, -14),
                    n_out,
                    k_in,
                    block_size,
                    indices[r] as int,
                ),
                r,
                c,
                32,
                k_in / 32,
            ),
        )
}

/// Stacks of `experts` experts fit their buffers.
pub open spec fn nvfp4_fits(
    w: Seq<u32>,
    scales: Seq<u8>,
    n_out: int,
    k_in: int,
    block_size: int,
    experts: int,
) -> bool {
    &&& experts * n_out * (k_in / 8) <= w.len()
    &&& experts * n_out * (k_in / block_size) <= scales.len()
}

/// Activations and expert weights, staged through `S`.
pub(crate) struct Nvfp4Tiles<'a, A, S, T> {
    pub x: &'a [T],
    pub w: &'a [u32],
    pub scales: &'a [u8],
    pub global: A,
    pub bias: A,
    pub n_out: usize,
    pub k_in: usize,
    pub block_size: usize,
    pub rows: usize,
    pub stage: PhantomData<S>,
}

impl<'a, A: Scalar, S: Storage<A>, T: Storage<A>> TileSource<A> for Nvfp4Tiles<'a, A, S, T> {
    open spec fn ready(&self) -> bool {
        &&& self.block_size > 0
        &&& self.k_in as int % 8 == 0
        &&& self.k_in as int % self.block_size as int == 0
        &&& self.rows * self.k_in <= self.x@.len()
    }

    open spec fn depth(&self) -> int {
        self.k_in as int
    }

    open spec fn has_row(&self, row: int) -> bool {
        0 <= row < self.rows
    }

    open spec fn has_expert(&self, expert: int) -> bool {
        &&& 0 <= expert
        &&& nvfp4_fits(
            self.w@,
            self.scales@,
            self.n_out as int,
            self.k_in as int,
            self.block_size as int,
            expert + 1,
        )
    }

    open spec fn cols(&self) -> int {
        self.n_out as int
    }

    open spec fn unit(&self) -> int {
        8
    }

    open spec fn x_at(&self) -> spec_fn(int, int) -> A {
        biased_rows::<A, S, T>(self.x@, self.bias, self.k_in as int)
    }

    open spec fn w_at(&self, expert: int) -> spec_fn(int, int) -> A {
        nvfp4_weights::<A, S>(
            self.w@,
            self.scales@,
            self.global,
            self.bias,
            self.n_out as int,
            self.k_in as int,
            self.block_size as int,
            expert,
        )
    }

    fn x(&self, row: usize, k: usize) -> (r: A) {
        let v: A = read(self.x, Ghost(self.rows as int), self.k_in, row, k).widen();
        round::<A, S>(v.times(self.bias))
    }

    fn w(&self, expert: usize, col: usize, k0: usize, ws: &mut Vec<A>, at: usize) {
        let t = self;
        let ghost stack = (expert + 1) * t.n_out;
        proof {
            assert(self.k_in > 0 && self.n_out > 0);
            lemma_stack(expert as int, t.n_out as int, col as int);
            lemma_row_bound(stack, t.k_in as int / 8, t.w@.len() as int);
            assert(t.w@.len() == t.w.len());
        }
        let row: usize = expert * t.n_out + col;
        let packed: u32 = read(t.w, Ghost(stack), t.k_in / 8, row, k0 / 8);
        let ghost was = ws@;
        let mut j: usize = 0;
        while j < 8
            invariant
                j <= 8,
                t == self,
                k0 % 8 == 0,
                at + 8 <= was.len(),
                ws@.len() == was.len(),
                row == expert * t.n_out + col,
                packed == cell(t.w@, t.k_in as int / 8, row as int, k0 as int / 8),
                row < stack,
                t.ready(),
                k0 + 8 <= t.k_in,
                stack * (t.k_in as int / t.block_size as int) <= t.scales@.len(),
                forall|i: int|
                    0 <= i < j ==> #[trigger] ws@[at + i] == (self.w_at(expert as int))(
                        col as int,
                        k0 + i,
                    ),
                forall|i: int|
                    0 <= i < was.len() && !(at <= i < at + 8) ==> #[trigger] ws@[i] == was[i],
            decreases 8 - j,
        {
            let nib: u32 = (packed >> ((j as u32) * 4)) & 15;
            proof {
                let k = k0 + j;
                assert(k / 8 == k0 / 8 && k % 8 == j);
                lemma_group_in(t.k_in as int, t.block_size as int, k);
            }
            let sraw: u8 = read(
                t.scales,
                Ghost(stack),
                t.k_in / t.block_size,
                row,
                (k0 + j) / t.block_size,
            );
            let scale: A = iron_decode_e4m3::<A>(sraw as u32).times(t.global).times(t.bias);
            assert(ws@.len() == ws.len());
            ws[at + j] = round::<A, S>(iron_decode_e2m1::<A>(nib).times(scale));
            j = j + 1;
        }
    }
}

/// `(e * (s * a)) * (x * b) == (a * b) * ((e * s) * x)`.
pub(crate) proof fn lemma_factors<A: Scalar>(e: A, s: A, x: A, a: A, b: A)
    requires
        lossless::<A>(),
    ensures
        e.times_spec(s.times_spec(a)).times_spec(x.times_spec(b)) == a.times_spec(b).times_spec(
            e.times_spec(s).times_spec(x),
        ),
{
    let p = e.times_spec(s);
    let ab = a.times_spec(b);
    times_assoc(e, s, a);
    times_assoc(p, a, x.times_spec(b));
    times_comm(x, b);
    times_assoc(a, b, x);
    times_comm(p, ab.times_spec(x));
    times_assoc(ab, x, p);
    times_comm(x, p);
}

/// A factor of `2^-e` on every term and a factor of `2^e` on their sum cancel.
pub(crate) proof fn lemma_compensated<A: Scalar>(
    e: int,
    n: int,
    f: spec_fn(int) -> A,
    h: spec_fn(int) -> A,
)
    requires
        lossless::<A>(),
        forall|k: int| 0 <= k < n ==> #[trigger] h(k) == A::dyadic_spec(1, -e).times_spec(f(k)),
    ensures
        plain_sum(n, h).times_spec(A::dyadic_spec(1, e)) == plain_sum(n, f),
{
    let (down, up): (A, A) = (A::dyadic_spec(1, -e), A::dyadic_spec(1, e));
    let sum = plain_sum(n, f);
    lemma_sum_factor(down, 0, n, f, h);
    times_comm(down, sum);
    times_assoc(sum, down, up);
    dyadic_times::<A>(1, -e, 1, e);
    times_one(sum);
}

/// In exact arithmetic the factors of `2^-14` on activations and weights and the factor of
/// `2^28` on the accumulators cancel: an output is the plain dot product of the activations
/// with the decoded weights, whatever the depth of the steps.
#[allow(clippy::too_many_arguments)]
pub proof fn law_biased_product_is_plain_sum<A: Scalar, S: Storage<A>, T: Storage<A>>(
    x: Seq<T>,
    w: Seq<u32>,
    scales: Seq<u8>,
    global: A,
    n_out: int,
    k_in: int,
    block_size: int,
    expert: int,
    r: int,
    c: int,
    bk: int,
)
    requires
        lossless::<A>(),
        keeps::<A, S>(),
        0 < block_size,
        0 <= k_in,
        0 < bk,
        k_in % bk == 0,
    ensures
        finished::<A, T>(
            Some(A::dyadic_spec(1, 28)),
            mma_cell(
                biased_rows::<A, S, T>(x, A::dyadic_spec(1, -14), k_in),
                nvfp4_weights::<A, S>(
                    w,
                    scales,
                    global,
                    A::dyadic_spec(1, -14),
                    n_out,
                    k_in,
                    block_size,
                    expert,
                ),
                r,
                c,
                bk,
                k_in / bk,
            ),
        ) == T::narrow_spec(
            plain_sum(
                k_in,
                nvfp4_terms::<A, T>(
                    x,
                    w,
                    scales,
                    global,
                    n_out,
                    k_in,
                    block_size,
                    expert,
                    r,
                    c,
                ),
            ),
        ),
{
    let bias: A = A::dyadic_spec(1, -14);
    let xs = biased_rows::<A, S, T>(x, bias, k_in);
    let ws = nvfp4_weights::<A, S>(w, scales, global, bias, n_out, k_in, block_size, expert);
    let staged = fma_terms(xs, ws, r, c);
    let plain = nvfp4_terms::<A, T>(
        x,
        w,
        scales,
        global,
        n_out,
        k_in,
        block_size,
        expert,
        r,
        c,
    );
    lemma_steps(k_in, bk);
    law_tiled_product_is_plain_sum(xs, ws, r, c, bk, k_in / bk);
    dyadic_times::<A>(1, -14, 1, -14);
    assert forall|k: int| 0 <= k < k_in implies #[trigger] staged(k) == A::dyadic_spec(
        1,
        -28,
    ).times_spec(plain(k)) by {
        let code: A = e2m1(nvfp4_code(w, n_out, k_in, expert, c, k));
        let scale: A = nvfp4_scale::<A>(
            scales,
            n_out,
            k_in,
            block_size,
            expert,
            c,
            k,
        ).times_spec(global);
        let v: A = cell(x, k_in, r, k).widen_spec();
        assert(rounded::<A, S>(v.times_spec(bias)) == v.times_spec(bias));
        let weight = code.times_spec(scale.times_spec(bias));
        assert(rounded::<A, S>(weight) == weight);
        lemma_factors(code, scale, v, bias, bias);
    }
    lemma_compensated(28, k_in, plain, staged);
}

/// In exact arithmetic activations scaled by `s` give outputs scaled by `s`.
#[allow(clippy::too_many_arguments)]
pub proof fn law_outputs_scale_with_activations<A: Scalar, X: Storage<A>>(
    x: Seq<X>,
    scaled: Seq<X>,
    s: A,
    w: Seq<u32>,
    scales: Seq<u8>,
    global: A,
    n_out: int,
    k_in: int,
    block_size: int,
    expert: int,
    r: int,
    c: int,
)
    requires
        lossless::<A>(),
        forall|k: int|
            0 <= k < k_in ==> (#[trigger] cell(scaled, k_in, r, k)).widen_spec() == s.times_spec(
                cell(x, k_in, r, k).widen_spec(),
            ),
    ensures
        plain_sum(
            k_in,
            nvfp4_terms::<A, X>(
                scaled,
                w,
                scales,
                global,
                n_out,
                k_in,
                block_size,
                expert,
                r,
                c,
            ),
        ) == s.times_spec(
            plain_sum(
                k_in,
                nvfp4_terms::<A, X>(
                    x,
                    w,
                    scales,
                    global,
                    n_out,
                    k_in,
                    block_size,
                    expert,
                    r,
                    c,
                ),
            ),
        ),
{
    let f = nvfp4_terms::<A, X>(
        x,
        w,
        scales,
        global,
        n_out,
        k_in,
        block_size,
        expert,
        r,
        c,
    );
    let h = nvfp4_terms::<A, X>(
        scaled,
        w,
        scales,
        global,
        n_out,
        k_in,
        block_size,
        expert,
        r,
        c,
    );
    assert forall|k: int| 0 <= k < k_in implies #[trigger] h(k) == s.times_spec(f(k)) by {
        let v: A = cell(x, k_in, r, k).widen_spec();
        assert(Storage::<A>::widen_spec(cell(scaled, k_in, r, k)) == s.times_spec(v));
        let weight = e2m1::<A>(nvfp4_code(w, n_out, k_in, expert, c, k)).times_spec(
            e4m3::<A>(
                cell(scales, k_in / block_size, expert * n_out + c, k / block_size) as u32,
            ).times_spec(global),
        );
        times_assoc(weight, s, v);
        times_comm(weight, s);
        times_assoc(s, weight, v);
    }
    lemma_sum_factor(s, 0, k_in, f, h);
}

/// Whole steps cover the inner dimension.
pub(crate) proof fn lemma_steps(k_in: int, bk: int)
    requires
        0 <= k_in,
        0 < bk,
        k_in % bk == 0,
    ensures
        0 <= k_in / bk,
        k_in / bk * bk == k_in,
{
    vstd::arithmetic::div_mod::lemma_fundamental_div_mod(k_in, bk);
    vstd::arithmetic::div_mod::lemma_div_pos_is_pos(k_in, bk);
    assert(k_in / bk * bk == bk * (k_in / bk)) by (nonlinear_arith);
}

/// Row `col` of expert `expert` in a stack of experts.
pub(crate) proof fn lemma_stack(expert: int, n_out: int, col: int)
    requires
        0 <= expert,
        0 <= col < n_out,
    ensures
        0 <= expert * n_out + col < (expert + 1) * n_out,
        0 <= expert * n_out,
{
    lemma_flat(expert + 1, n_out, expert, col);
}

/// A row count is at most the length of a buffer that holds the rows.
pub(crate) proof fn lemma_row_bound(rows: int, cols: int, len: int)
    requires
        rows * cols <= len,
        cols >= 1,
        rows >= 0,
    ensures
        rows <= len,
{
    assert(rows <= rows * cols) by (nonlinear_arith)
        requires
            cols >= 1,
            rows >= 0,
    ;
}

} // verus!
