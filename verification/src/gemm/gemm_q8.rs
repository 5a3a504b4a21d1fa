//! Tiled GEMM over Q8 weights: 32 by 32 outputs per threadgroup, 16 columns staged at a time.
use crate::exact::{lemma_sum_same, lossless};
use crate::gemm::gemv_quantized::{law_q8_dot_is_plain_sum, q8_dot};
use crate::gemm::dense::{column_tiles, dense_cell};
use crate::gemm::q8::{byte_of, q8_code, q8_fits, q8_terms};
use crate::scalar::{whole, Scalar, Storage};
use crate::tensor::{cell, filled2, lemma_flat, read};
use crate::tile::{fma_terms, Shape, TileSource};
use vstd::prelude::*;

verus! {

/// Activations of group `g`: row `r` holds `n_groups` slices of `in_dim`.
pub open spec fn group_inputs<A: Scalar, T: Storage<A>>(
    input: Seq<T>,
    in_dim: int,
    n_groups: int,
    g: int,
) -> spec_fn(int, int) -> A {
    |r: int, k: int| input[r * (n_groups * in_dim) + g * in_dim + k].widen_spec()
}

/// The decoded weights, `d * q`.
pub open spec fn q8_weights<A: Scalar>(qs: Seq<u32>, d: Seq<A>, in_dim: int) -> spec_fn(
    int,
    int,
) -> A {
    |col: int, k: int|
        cell(d, in_dim / 32, col, k / 32).times_spec(whole::<A>(q8_code(qs, in_dim, col, k)))
}

/// The outputs: `out[r, o] = sum_k W[o, k] * input[r, o / rows_per_group, k]`, added in the
/// order of `k`.
pub open spec fn q8_product<A: Scalar, T: Storage<A>>(
    qs: Seq<u32>,
    d: Seq<A>,
    input: Seq<T>,
    in_dim: int,
    n_groups: int,
    rows_per_group: int,
) -> spec_fn(int, int) -> T {
    |r: int, o: int|
        T::narrow_spec(
            dense_cell(
                false,
                group_inputs::<A, T>(input, in_dim, n_groups, o / rows_per_group),
                q8_weights::<A>(qs, d, in_dim),
                r,
                o,
                16,
                in_dim,
            ),
        )
}

struct Q8Tiles<'a, A, T> {
    qs: &'a [u32],
    d: &'a [A],
    input: &'a [T],
    n_rows: usize,
    out_dim: usize,
    in_dim: usize,
    n_groups: usize,
    group: usize,
}

impl<'a, A: Scalar, T: Storage<A>> TileSource<A> for Q8Tiles<'a, A, T> {
    closed spec fn ready(&self) -> bool {
        &&& self.in_dim % 32 == 0
        &&& self.group < self.n_groups
        &&& self.n_rows * (self.n_groups * self.in_dim) <= self.input@.len()
        &&& q8_fits(self.qs@, self.d@, self.in_dim as int, self.out_dim as int)
    }

    closed spec fn depth(&self) -> int {
        self.in_dim as int
    }

    closed spec fn has_row(&self, row: int) -> bool {
        0 <= row < self.n_rows
    }

    closed spec fn has_expert(&self, expert: int) -> bool {
        expert == 0
    }

    closed spec fn cols(&self) -> int {
        self.out_dim as int
    }

    closed spec fn unit(&self) -> int {
        1
    }

    closed spec fn x_at(&self) -> spec_fn(int, int) -> A {
        group_inputs::<A, T>(
            self.input@,
            self.in_dim as int,
            self.n_groups as int,
            self.group as int,
        )
    }

    closed spec fn w_at(&self, expert: int) -> spec_fn(int, int) -> A {
        q8_weights::<A>(self.qs@, self.d@, self.in_dim as int)
    }

    fn x(&self, row: usize, k: usize) -> (r: A) {
        proof {
            lemma_flat(self.n_groups as int, self.in_dim as int, self.group as int, k as int);
            lemma_flat(
                self.n_rows as int,
                self.n_groups * self.in_dim,
                row as int,
                self.group * self.in_dim + k,
            );
            assert(self.input@.len() == self.input.len());
            let stride = self.n_groups * self.in_dim;
            let rows = self.n_rows as int;
            assert(stride <= rows * stride) by (nonlinear_arith)
                requires
                    1 <= rows,
                    0 <= stride,
            ;
        }
        let stride: usize = self.n_groups * self.in_dim;
        self.input[row * stride + self.group * self.in_dim + k].widen()
    }

    fn w(&self, expert: usize, col: usize, k0: usize, ws: &mut Vec<A>, at: usize) {
        assert(ws@.len() == ws.len());
        let rows: Ghost<int> = Ghost(self.out_dim as int);
        let word: u32 = read(self.qs, rows, self.in_dim / 32 * 8, col, k0 / 4);
        let q: i32 = byte_of(word, k0 % 4);
        let d: A = read(self.d, rows, self.in_dim / 32, col, k0 / 32);
        ws[at] = d.times(A::dyadic(q as i64, 0));
    }
}

/// Runs all output tiles.
#[verifier::loop_isolation(false)]
fn gemm<A: Scalar, T: Storage<A>>(
    qs: &[u32],
    d_f32: &[A],
    input: &[T],
    out: &mut Vec<T>,
    in_dim: u32,
    out_dim: u32,
    n_rows: u32,
    n_groups: u32,
    rows_per_group: u32,
)
    requires
        in_dim % 32 == 0,
        rows_per_group > 0,
        rows_per_group % 32 == 0 || rows_per_group >= out_dim,
        out_dim > 0 ==> (out_dim - 1) / (rows_per_group as int) < n_groups,
        n_rows * (n_groups * in_dim) <= input@.len(),
        q8_fits(qs@, d_f32@, in_dim as int, out_dim as int),
        n_rows * out_dim <= old(out)@.len(),
        n_rows + 64 <= u32::MAX,
        out_dim + 64 <= u32::MAX,
    ensures
        filled2(
            old(out)@,
            final(out)@,
            n_rows as int,
            out_dim as int,
            q8_product::<A, T>(
                qs@,
                d_f32@,
                input@,
                in_dim as int,
                n_groups as int,
                rows_per_group as int,
            ),
        ),
{
    let ghost was = out@;
    let shape = Shape { bm: 32, bn: 32, bk: 16, sm: 32, sn: 32 };
    let ghost value = q8_product::<A, T>(
        qs@,
        d_f32@,
        input@,
        in_dim as int,
        n_groups as int,
        rows_per_group as int,
    );
    let (rows, cols): (usize, usize) = (n_rows as usize, out_dim as usize);
    let mut n_base: usize = 0;
    while n_base < cols
        invariant
            n_base % 32 == 0,
            n_base < cols + 32,
            out@.len() == was.len(),
            forall|i: int| rows * cols <= i < was.len() ==> #[trigger] out@[i] == was[i],
            forall|r: int, c: int|
                0 <= r < rows && 0 <= c < cols && c < n_base ==> #[trigger] cell(
                    out@,
                    cols as int,
                    r,
                    c,
                ) == value(r, c),
        decreases cols + 32 - n_base,
    {
        let group: usize = n_base / (rows_per_group as usize);
        proof {
            vstd::arithmetic::div_mod::lemma_div_is_ordered(
                n_base as int,
                out_dim - 1,
                rows_per_group as int,
            );
            assert forall|c: int| n_base <= c < n_base + 32 && c < cols implies (#[trigger] (c / (
            rows_per_group as int))) == group by {
                lemma_tile_group(n_base as int, c, rows_per_group as int, cols as int);
            }
        }
        let src = Q8Tiles {
            qs,
            d: d_f32,
            input,
            n_rows: rows,
            out_dim: cols,
            in_dim: in_dim as usize,
            n_groups: n_groups as usize,
            group,
        };
        column_tiles::<A, T, Q8Tiles<A, T>>(
            false,
            &src,
            &shape,
            out,
            rows,
            cols,
            n_base,
            1,
            in_dim as usize,
        );
        n_base = n_base + 32;
    }
}

/// The columns of a tile share a group.
proof fn lemma_tile_group(n_base: int, c: int, rows_per_group: int, cols: int)
    requires
        0 <= n_base <= c < n_base + 32,
        c < cols,
        n_base % 32 == 0,
        rows_per_group > 0,
        rows_per_group % 32 == 0 || rows_per_group >= cols,
    ensures
        c / rows_per_group == n_base / rows_per_group,
{
    if rows_per_group >= cols {
        vstd::arithmetic::div_mod::lemma_basic_div(c, rows_per_group);
        vstd::arithmetic::div_mod::lemma_basic_div(n_base, rows_per_group);
    } else {
        let q = n_base / rows_per_group;
        let e = n_base % rows_per_group;
        vstd::arithmetic::div_mod::lemma_fundamental_div_mod(n_base, rows_per_group);
        vstd::arithmetic::div_mod::lemma_mod_bound(n_base, rows_per_group);
        let h = rows_per_group / 32;
        assert(rows_per_group * q == 32 * (h * q) && q * rows_per_group == 32 * (h * q))
            by (nonlinear_arith)
            requires
                rows_per_group == 32 * h,
        ;
        assert(e % 32 == 0);
        assert(e + 32 <= rows_per_group);
        vstd::arithmetic::div_mod::lemma_fundamental_div_mod_converse(
            c,
            rows_per_group,
            q,
            e + (c - n_base),
        );
    }
}

/// `out[r, o] = sum_k W[o, k] * input[r, k]`.
pub fn iron_gemm_q8<A: Scalar, T: Storage<A>>(
    qs: &[u32],
    d_f32: &[A],
    input: &[T],
    out: &mut Vec<T>,
    in_dim: u32,
    out_dim: u32,
    n_rows: u32,
)
    requires
        in_dim % 32 == 0,
        n_rows * in_dim <= input@.len(),
        q8_fits(qs@, d_f32@, in_dim as int, out_dim as int),
        n_rows * out_dim <= old(out)@.len(),
        n_rows + 64 <= u32::MAX,
        out_dim + 64 <= u32::MAX,
    ensures
        filled2(
            old(out)@,
            final(out)@,
            n_rows as int,
            out_dim as int,
            q8_product::<A, T>(qs@, d_f32@, input@, in_dim as int, 1, out_dim as int),
        ),
{
    if out_dim > 0 {
        proof {
            vstd::arithmetic::div_mod::lemma_basic_div(out_dim - 1, out_dim as int);
        }
        gemm(qs, d_f32, input, out, in_dim, out_dim, n_rows, 1, out_dim);
    }
}

/// `out[r, o] = sum_k W[o, k] * input[r, o / rows_per_group, k]`: every group of output
/// columns reads its own slice of the input row.
pub fn iron_grouped_gemm_q8<A: Scalar, T: Storage<A>>(
    qs: &[u32],
    d_f32: &[A],
    input: &[T],
    out: &mut Vec<T>,
    in_dim: u32,
    out_dim: u32,
    n_rows: u32,
    n_groups: u32,
    rows_per_group: u32,
)
    requires
        in_dim % 32 == 0,
        rows_per_group > 0,
        rows_per_group % 32 == 0,
        out_dim > 0 ==> (out_dim - 1) / (rows_per_group as int) < n_groups,
        n_rows * (n_groups * in_dim) <= input@.len(),
        q8_fits(qs@, d_f32@, in_dim as int, out_dim as int),
        n_rows * out_dim <= old(out)@.len(),
        n_rows + 64 <= u32::MAX,
        out_dim + 64 <= u32::MAX,
    ensures
        filled2(
            old(out)@,
            final(out)@,
            n_rows as int,
            out_dim as int,
            q8_product::<A, T>(
                qs@,
                d_f32@,
                input@,
                in_dim as int,
                n_groups as int,
                rows_per_group as int,
            ),
        ),
{
    gemm(
        qs,
        d_f32,
        input,
        out,
        in_dim,
        out_dim,
        n_rows,
        n_groups,
        rows_per_group,
    );
}

/// In exact arithmetic every row of the tiled product is the Q8 GEMV of that row.
pub proof fn law_gemm_is_gemv<A: Scalar, T: Storage<A>>(
    qs: Seq<u32>,
    d: Seq<A>,
    input: Seq<T>,
    in_dim: int,
    n_groups: int,
    rows_per_group: int,
    r: int,
    o: int,
    stride: int,
)
    requires
        lossless::<A>(),
        0 <= in_dim,
        in_dim % 32 == 0,
        stride == 4 || stride == 32,
    ensures
        (q8_product::<A, T>(qs, d, input, in_dim, n_groups, rows_per_group))(r, o)
            == T::narrow_spec(
            q8_dot::<A, A, T>(
                qs,
                d,
                input,
                r * (n_groups * in_dim) + o / rows_per_group * in_dim,
                in_dim,
                o,
                stride,
            ),
        ),
{
    let off = r * (n_groups * in_dim) + o / rows_per_group * in_dim;
    law_q8_dot_is_plain_sum::<A, A, T>(qs, d, input, off, in_dim, o, stride);
    let xs = group_inputs::<A, T>(input, in_dim, n_groups, o / rows_per_group);
    let ws = q8_weights::<A>(qs, d, in_dim);
    lemma_sum_same(
        whole(0),
        0,
        in_dim,
        fma_terms(xs, ws, r, o),
        q8_terms::<A, A, T>(qs, d, input, off, in_dim, o),
    );
}

} // verus!
