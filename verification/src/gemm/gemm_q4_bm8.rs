//! Tiled GEMM over Q4 weights, eight activation rows per tile.
use crate::exact::{
    keeps, law_tiled_product_is_plain_sum, lemma_sum_same, lossless,
};
use crate::gemm::gemv_quantized::{law_q4_dot_is_plain_sum, q4_dot};
use crate::gemm::dense::{column_tiles, dense_cell};
use crate::gemm::q4::{nibble, q4_code, q4_fits, q4_single_terms};
use crate::scalar::{round, rounded, whole, Scalar, Storage};
use crate::tensor::{cell, filled2, read};
use crate::tile::{fma_terms, Shape, TileSource};
use std::marker::PhantomData;
use vstd::prelude::*;

verus! {

/// Activations as they are staged.
pub open spec fn staged_inputs<A: Scalar, S: Storage<A>, T: Storage<A>>(
    x: Seq<T>,
    k_in: int,
) -> spec_fn(int, int) -> A {
    |r: int, k: int| rounded::<A, S>(cell(x, k_in, r, k).widen_spec())
}

/// Weights as they are staged: `scale * q`, rounded.
pub open spec fn staged_q4<A: Scalar, S: Storage<A>, D: Storage<A>>(
    qs: Seq<u32>,
    scales: Seq<D>,
    k_in: int,
) -> spec_fn(int, int) -> A {
    |col: int, k: int|
        rounded::<A, S>(
            cell(scales, k_in / 32, col, k / 32).widen_spec().times_spec(
                whole::<A>(q4_code(qs, k_in, col, k)),
            ),
        )
}

/// The outputs: `out[r, c] = sum_k x[r, k] * W[c, k]`, in steps of 16 columns.
pub open spec fn q4_product<A: Scalar, S: Storage<A>, D: Storage<A>, T: Storage<A>>(
    x: Seq<T>,
    qs: Seq<u32>,
    scales: Seq<D>,
    k_in: int,
) -> spec_fn(int, int) -> T {
    |r: int, c: int|
        T::narrow_spec(
            dense_cell(
                true,
                staged_inputs::<A, S, T>(x, k_in),
                staged_q4::<A, S, D>(qs, scales, k_in),
                r,
                c,
                16,
                k_in,
            ),
        )
}

struct Q4Tiles<'a, S, D, T> {
    x: &'a [T],
    qs: &'a [u32],
    scales: &'a [D],
    n_rows: usize,
    out_dim: usize,
    k_in: usize,
    stage: PhantomData<S>,
}

impl<'a, A: Scalar, S: Storage<A>, D: Storage<A>, T: Storage<A>> TileSource<A> for Q4Tiles<
    'a,
    S,
    D,
    T,
> {
    closed spec fn ready(&self) -> bool {
        &&& self.k_in % 32 == 0
        &&& self.n_rows * self.k_in <= self.x@.len()
        &&& q4_fits(self.qs@, self.scales@, self.k_in as int, self.out_dim as int)
    }

    closed spec fn depth(&self) -> int {
        self.k_in as int
    }

    closed spec fn has_row(&self, row: int) -> bool {
        0 <= row < self.n_rows
    }

    closed spec fn has_expert(&self, expert: int) -> bool {
        expert == 0
    }

    closed spec fn cols(&self) -> int {
        self.out_dim as int
    }

    closed spec fn unit(&self) -> int {
        8
    }

    closed spec fn x_at(&self) -> spec_fn(int, int) -> A {
        staged_inputs::<A, S, T>(self.x@, self.k_in as int)
    }

    closed spec fn w_at(&self, expert: int) -> spec_fn(int, int) -> A {
        staged_q4::<A, S, D>(self.qs@, self.scales@, self.k_in as int)
    }

    fn x(&self, row: usize, k: usize) -> (r: A) {
        let v: A = read(self.x, Ghost(self.n_rows as int), self.k_in, row, k).widen();
        round::<A, S>(v)
    }

    fn w(&self, expert: usize, col: usize, k0: usize, ws: &mut Vec<A>, at: usize) {
        let ghost was = ws@;
        assert(ws@.len() == ws.len());
        let rows: Ghost<int> = Ghost(self.out_dim as int);
        let sc: A = read(self.scales, rows, self.k_in / 32, col, k0 / 32).widen();
        let word: u32 = read(self.qs, rows, self.k_in / 32 * 4, col, k0 / 8);
        let mut j: usize = 0;
        while j < 8
            invariant
                j <= 8,
                k0 % 8 == 0,
                at + 8 <= was.len() <= usize::MAX,
                ws@.len() == was.len(),
                sc == cell(
                    self.scales@,
                    self.k_in as int / 32,
                    col as int,
                    k0 as int / 32,
                ).widen_spec(),
                word == cell(self.qs@, self.k_in as int / 32 * 4, col as int, k0 as int / 8),
                forall|i: int|
                    0 <= i < j ==> #[trigger] ws@[at + i] == (TileSource::<A>::w_at(
                        self,
                        expert as int,
                    ))(col as int, k0 + i),
                forall|i: int|
                    0 <= i < was.len() && !(at <= i < at + 8) ==> #[trigger] ws@[i] == was[i],
            decreases 8 - j,
        {
            let q: i32 = nibble(word, j);
            assert((k0 + j) / 8 == k0 / 8 && (k0 + j) % 8 == j && (k0 + j) / 32 == k0 / 32);
            ws[at + j] = round::<A, S>(sc.times(A::dyadic(q as i64, 0)));
            j = j + 1;
        }
    }
}

/// Runs all output tiles of `bn` columns.
#[verifier::loop_isolation(false)]
pub(crate) fn gemm_q4<A: Scalar, S: Storage<A>, D: Storage<A>, T: Storage<A>>(
    bn: usize,
    x: &[T],
    qs: &[u32],
    scales: &[D],
    out: &mut Vec<T>,
    n_rows: u32,
    out_dim: u32,
    k_in: u32,
)
    requires
        0 < bn <= 64,
        k_in % 32 == 0,
        n_rows * k_in <= x@.len(),
        q4_fits(qs@, scales@, k_in as int, out_dim as int),
        n_rows * out_dim <= old(out)@.len(),
        n_rows + 64 <= u32::MAX,
        out_dim + 64 <= u32::MAX,
    ensures
        filled2(
            old(out)@,
            final(out)@,
            n_rows as int,
            out_dim as int,
            q4_product::<A, S, D, T>(x@, qs@, scales@, k_in as int),
        ),
{
    let ghost was = out@;
    let src = Q4Tiles::<S, D, T> {
        x,
        qs,
        scales,
        n_rows: n_rows as usize,
        out_dim: out_dim as usize,
        k_in: k_in as usize,
        stage: PhantomData,
    };
    let shape = Shape { bm: 8, bn, bk: 16, sm: 8, sn: bn };
    let ghost value = q4_product::<A, S, D, T>(x@, qs@, scales@, k_in as int);
    let (rows, cols): (usize, usize) = (n_rows as usize, out_dim as usize);
    let mut n_base: usize = 0;
    proof {
        vstd::arithmetic::div_mod::lemma_mod_self_0(bn as int);
    }
    while n_base < cols
        invariant
            n_base < cols + bn,
            out@.len() == was.len(),
            forall|i: int| rows * cols <= i < was.len() ==> #[trigger] out@[i] == was[i],
            forall|r: int, c: int|
                0 <= r < rows && 0 <= c < cols && c < n_base ==> #[trigger] cell(
                    out@,
                    cols as int,
                    r,
                    c,
                ) == value(r, c),
        decreases cols + bn - n_base,
    {
        column_tiles::<A, T, Q4Tiles<S, D, T>>(
            true,
            &src,
            &shape,
            out,
            rows,
            cols,
            n_base,
            8,
            k_in as usize,
        );
        n_base = n_base + bn;
    }
}

/// `out[r, c] = sum_k x[r, k] * W[c, k]` in tiles of 8 by 32.
pub fn iron_gemm_q4_bm8<A: Scalar, S: Storage<A>, D: Storage<A>, T: Storage<A>>(
    x: &[T],
    qs: &[u32],
    scales: &[D],
    out: &mut Vec<T>,
    n_rows: u32,
    out_dim: u32,
    k_in: u32,
)
    requires
        k_in % 32 == 0,
        n_rows * k_in <= x@.len(),
        q4_fits(qs@, scales@, k_in as int, out_dim as int),
        n_rows * out_dim <= old(out)@.len(),
        n_rows + 64 <= u32::MAX,
        out_dim + 64 <= u32::MAX,
    ensures
        filled2(
            old(out)@,
            final(out)@,
            n_rows as int,
            out_dim as int,
            q4_product::<A, S, D, T>(x@, qs@, scales@, k_in as int),
        ),
{
    gemm_q4::<A, S, D, T>(32, x, qs, scales, out, n_rows, out_dim, k_in);
}

/// In exact arithmetic every row of the tiled product is the Q4 GEMV of that row.
pub proof fn law_gemm_is_gemv<A: Scalar, S: Storage<A>, D: Storage<A>, T: Storage<A>>(
    x: Seq<T>,
    qs: Seq<u32>,
    scales: Seq<D>,
    k_in: int,
    r: int,
    c: int,
)
    requires
        lossless::<A>(),
        keeps::<A, S>(),
        0 <= k_in,
        k_in % 32 == 0,
    ensures
        (q4_product::<A, S, D, T>(x, qs, scales, k_in))(r, c) == T::narrow_spec(
            q4_dot::<A, D, T>(qs, scales, x, r * k_in, k_in, c, 8),
        ),
{
    let xs = staged_inputs::<A, S, T>(x, k_in);
    let ws = staged_q4::<A, S, D>(qs, scales, k_in);
    law_tiled_product_is_plain_sum(xs, ws, r, c, 16, k_in / 16);
    law_q4_dot_is_plain_sum::<A, D, T>(qs, scales, x, r * k_in, k_in, c, 8);
    let terms = fma_terms(xs, ws, r, c);
    let singles = q4_single_terms::<A, D, T>(qs, scales, x, r * k_in, k_in, c);
    assert forall|k: int| 0 <= k < k_in implies #[trigger] terms(k) == singles(k) by {
        let v: A = cell(x, k_in, r, k).widen_spec();
        assert(rounded::<A, S>(v) == v);
        let w: A = cell(scales, k_in / 32, c, k / 32).widen_spec().times_spec(
            whole::<A>(q4_code(qs, k_in, c, k)),
        );
        assert(rounded::<A, S>(w) == w);
    }
    lemma_sum_same(whole(0), 0, k_in, terms, singles);
    assert(k_in / 16 * 16 == k_in);
}

} // verus!
