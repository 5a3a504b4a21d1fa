//! Dequantising GEMV over Q8_0 and Q4 weights, one output row per warp.
//!
//! Each run of `rows_per_group` output rows reads its own `k_in`-slice of the
//! activations. Accumulation is in registers, whatever the buffers hold.
use crate::exact::{
    law_equal_terms_reduce_alike, law_reduction_is_plain_sum, lemma_sum_factor, lemma_sum_same,
    lemma_units, lossless, plain_sum, times_assoc, unit_sums,
};
use crate::gemm::q4::{
    q4_code, q4_fits, q4_products, q4_single_terms, q4_terms, Q4Row, Q4Units,
};
use crate::gemm::q8::{q8_fits, q8_terms, Q8Row};
use crate::rows::{
    fill_grid, fill_grid_tiled, fill_rows, finish, stored, Finish, GridWork, RowWork,
};
use crate::scalar::{group_sum, run_group, whole, Scalar, Storage};
use crate::tensor::{cell, filled, filled2};
use vstd::prelude::*;

verus! {

/// The dot product of a Q8 row with the activations from `off` on, walked by 32 lanes
/// in units of `stride` columns.
pub open spec fn q8_dot<A: Scalar, D: Storage<A>, T: Storage<A>>(
    qs: Seq<u32>,
    d: Seq<D>,
    x: Seq<T>,
    off: int,
    k_in: int,
    row: int,
    stride: int,
) -> A {
    group_sum(
        32,
        if stride == 4 {
            k_in / 32 * 8
        } else {
            k_in / 32
        },
        stride,
        q8_terms::<A, D, T>(qs, d, x, off, k_in, row),
    )
}

/// The dot product of a Q4 row with the activations from `off` on, walked by 32 lanes
/// in units of `per` columns.
pub open spec fn q4_dot<A: Scalar, D: Storage<A>, T: Storage<A>>(
    qs: Seq<u32>,
    d: Seq<D>,
    x: Seq<T>,
    off: int,
    k_in: int,
    row: int,
    per: int,
) -> A {
    group_sum(
        32,
        if per == 8 {
            k_in / 32 * 4
        } else {
            k_in / 32
        },
        1,
        q4_terms::<A, D, T>(qs, d, x, off, k_in, row, per),
    )
}

/// Where the activations of row `row` start.
pub open spec fn slice_of(base: int, k_in: int, rows_per_group: int, row: int) -> int {
    base + (row / rows_per_group) * k_in
}

/// The outputs of a Q8 GEMV.
pub open spec fn q8_outputs<A: Scalar, D: Storage<A>, T: Storage<A>>(
    how: Finish<A>,
    before: Seq<T>,
    qs: Seq<u32>,
    d: Seq<D>,
    x: Seq<T>,
    k_in: int,
    rows_per_group: int,
    stride: int,
) -> spec_fn(int) -> T {
    |row: int|
        stored(
            how,
            before[row],
            q8_dot::<A, D, T>(
                qs,
                d,
                x,
                slice_of(0, k_in, rows_per_group, row),
                k_in,
                row,
                stride,
            ),
        )
}

/// The outputs of a Q4 GEMV.
pub open spec fn q4_outputs<A: Scalar, D: Storage<A>, T: Storage<A>>(
    how: Finish<A>,
    before: Seq<T>,
    qs: Seq<u32>,
    d: Seq<D>,
    x: Seq<T>,
    k_in: int,
    rows_per_group: int,
    per: int,
) -> spec_fn(int) -> T {
    |row: int|
        stored(
            how,
            before[row],
            q4_dot::<A, D, T>(qs, d, x, slice_of(0, k_in, rows_per_group, row), k_in, row, per),
        )
}

/// The outputs of a Q8 GEMV over a batch, one slice of `k_in` activations per group and batch
/// row.
pub open spec fn q8_batch<A: Scalar, D: Storage<A>, T: Storage<A>>(
    qs: Seq<u32>,
    d: Seq<D>,
    x: Seq<T>,
    k_in: int,
    m_out: int,
    rows_per_group: int,
) -> spec_fn(int, int) -> T {
    |token: int, row: int|
        T::narrow_spec(
            q8_dot::<A, D, T>(
                qs,
                d,
                x,
                slice_of(token * (m_out / rows_per_group * k_in), k_in, rows_per_group, row),
                k_in,
                row,
                32,
            ),
        )
}

/// The outputs of a Q4 GEMV over a batch.
pub open spec fn q4_batch<A: Scalar, D: Storage<A>, T: Storage<A>>(
    qs: Seq<u32>,
    d: Seq<D>,
    x: Seq<T>,
    k_in: int,
    m_out: int,
    rows_per_group: int,
) -> spec_fn(int, int) -> T {
    |t: int, row: int|
        T::narrow_spec(
            q4_dot::<A, D, T>(
                qs,
                d,
                x,
                slice_of(t * (m_out / rows_per_group * k_in), k_in, rows_per_group, row),
                k_in,
                row,
                8,
            ),
        )
}

/// Every row's slice of the activations, from `base` on, is there.
pub open spec fn slices_fit(
    x_len: int,
    base: int,
    k_in: int,
    m_out: int,
    rows_per_group: int,
) -> bool {
    &&& rows_per_group > 0
    &&& m_out > 0 ==> slice_of(base, k_in, rows_per_group, m_out - 1) + k_in / 32 * 32 <= x_len
}

proof fn lemma_slice(x_len: int, base: int, k_in: int, m_out: int, rows_per_group: int, row: int)
    requires
        slices_fit(x_len, base, k_in, m_out, rows_per_group),
        0 <= base,
        0 <= row < m_out,
        0 <= k_in,
    ensures
        slice_of(base, k_in, rows_per_group, row) + k_in / 32 * 32 <= x_len,
        0 <= row / rows_per_group,
        0 <= (row / rows_per_group) * k_in,
{
    vstd::arithmetic::div_mod::lemma_div_is_ordered(row, m_out - 1, rows_per_group);
    vstd::arithmetic::div_mod::lemma_div_pos_is_pos(row, rows_per_group);
    let a = row / rows_per_group;
    let b = (m_out - 1) / rows_per_group;
    assert(0 <= a * k_in <= b * k_in) by (nonlinear_arith)
        requires
            0 <= a <= b,
            0 <= k_in,
    ;
}

struct Q8Gemv<'a, A, D, T> {
    qs: &'a [u32],
    d: &'a [D],
    x: &'a [T],
    k_in: usize,
    m_out: usize,
    rows_per_group: usize,
    stride: usize,
    how: Finish<A>,
}

impl<'a, A: Scalar, D: Storage<A>, T: Storage<A>> Q8Gemv<'a, A, D, T> {
    spec fn fits(&self) -> bool {
        &&& q8_fits(self.qs@, self.d@, self.k_in as int, self.m_out as int)
        &&& self.k_in <= u32::MAX
        &&& self.stride == 4 || self.stride == 32
        &&& self.rows_per_group > 0
    }

    fn dot(&self, base: usize, row: usize) -> (r: A)
        requires
            self.fits(),
            row < self.m_out,
            slices_fit(
                self.x@.len() as int,
                base as int,
                self.k_in as int,
                self.m_out as int,
                self.rows_per_group as int,
            ),
        ensures
            r == q8_dot::<A, D, T>(
                self.qs@,
                self.d@,
                self.x@,
                slice_of(base as int, self.k_in as int, self.rows_per_group as int, row as int),
                self.k_in as int,
                row as int,
                self.stride as int,
            ),
    {
        proof {
            lemma_slice(
                self.x@.len() as int,
                base as int,
                self.k_in as int,
                self.m_out as int,
                self.rows_per_group as int,
                row as int,
            );
            assert(self.x@.len() == self.x.len());
        }
        let bpr: usize = self.k_in / 32;
        let units: usize = if self.stride == 4 {
            bpr * 8
        } else {
            bpr
        };
        run_group(
            &Q8Row {
                qs: self.qs,
                d: self.d,
                x: self.x,
                off: base + (row / self.rows_per_group) * self.k_in,
                k_in: self.k_in,
                row,
                stride: self.stride,
                rows: Ghost(self.m_out as int),
            },
            units,
            32,
        )
    }
}

impl<'a, A: Scalar, D: Storage<A>, T: Storage<A>> RowWork<T> for Q8Gemv<'a, A, D, T> {
    closed spec fn ready(&self) -> bool {
        &&& self.fits()
        &&& slices_fit(
            self.x@.len() as int,
            0,
            self.k_in as int,
            self.m_out as int,
            self.rows_per_group as int,
        )
    }

    closed spec fn rows(&self) -> int {
        self.m_out as int
    }

    closed spec fn values(&self, before: Seq<T>) -> spec_fn(int) -> T {
        q8_outputs::<A, D, T>(
            self.how,
            before,
            self.qs@,
            self.d@,
            self.x@,
            self.k_in as int,
            self.rows_per_group as int,
            self.stride as int,
        )
    }

    fn row(&self, prev: T, r: usize, before: Ghost<Seq<T>>) -> (v: T) {
        finish(&self.how, prev, self.dot(0, r))
    }
}

struct Q8Batch<'a, A, D, T> {
    gemv: Q8Gemv<'a, A, D, T>,
    tokens: usize,
}

/// Every batch row's activations are there.
pub open spec fn batch_fits(
    x_len: int,
    k_in: int,
    m_out: int,
    rows_per_group: int,
    tokens: int,
) -> bool {
    &&& rows_per_group > 0
    &&& tokens > 0 ==> slices_fit(
        x_len,
        (tokens - 1) * (m_out / rows_per_group * k_in),
        k_in,
        m_out,
        rows_per_group,
    )
}

proof fn lemma_batch(
    x_len: int,
    k_in: int,
    m_out: int,
    rows_per_group: int,
    tokens: int,
    token: int,
)
    requires
        batch_fits(x_len, k_in, m_out, rows_per_group, tokens),
        0 <= token < tokens,
        0 <= k_in,
        0 < m_out,
    ensures
        slices_fit(x_len, token * (m_out / rows_per_group * k_in), k_in, m_out, rows_per_group),
        0 <= m_out / rows_per_group * k_in,
        0 <= token * (m_out / rows_per_group * k_in) <= x_len,
        token > 0 ==> m_out / rows_per_group * k_in <= x_len,
{
    let stride = m_out / rows_per_group * k_in;
    vstd::arithmetic::div_mod::lemma_div_pos_is_pos(m_out, rows_per_group);
    assert(0 <= stride) by (nonlinear_arith)
        requires
            stride == m_out / rows_per_group * k_in,
            0 <= m_out / rows_per_group,
            0 <= k_in,
    ;
    assert(0 <= token * stride <= (tokens - 1) * stride) by (nonlinear_arith)
        requires
            0 <= token <= tokens - 1,
            0 <= stride,
    ;
    lemma_slice(x_len, (tokens - 1) * stride, k_in, m_out, rows_per_group, m_out - 1);
    if token > 0 {
        assert(stride <= token * stride) by (nonlinear_arith)
            requires
                1 <= token,
                0 <= stride,
        ;
    }
}

/// The offset of batch row `token`.
fn batch_base(
    x_len: Ghost<int>,
    k_in: usize,
    m_out: usize,
    rows_per_group: usize,
    tokens: Ghost<int>,
    token: usize,
) -> (base: usize)
    requires
        batch_fits(x_len@, k_in as int, m_out as int, rows_per_group as int, tokens@),
        x_len@ <= usize::MAX,
        token < tokens@,
        0 < m_out,
    ensures
        base == token * (m_out as int / rows_per_group as int * k_in),
{
    proof {
        lemma_batch(
            x_len@,
            k_in as int,
            m_out as int,
            rows_per_group as int,
            tokens@,
            token as int,
        );
    }
    if token == 0 {
        assert(token * (m_out as int / rows_per_group as int * k_in) == 0) by (nonlinear_arith)
            requires
                token == 0,
        ;
        0
    } else {
        token * (m_out / rows_per_group * k_in)
    }
}

impl<'a, A: Scalar, D: Storage<A>, T: Storage<A>> GridWork<T> for Q8Batch<'a, A, D, T> {
    closed spec fn ready(&self) -> bool {
        &&& self.gemv.fits()
        &&& self.gemv.stride == 32
        &&& batch_fits(
            self.gemv.x@.len() as int,
            self.gemv.k_in as int,
            self.gemv.m_out as int,
            self.gemv.rows_per_group as int,
            self.tokens as int,
        )
    }

    closed spec fn rows(&self) -> int {
        self.tokens as int
    }

    closed spec fn cols(&self) -> int {
        self.gemv.m_out as int
    }

    closed spec fn values(&self) -> spec_fn(int, int) -> T {
        q8_batch::<A, D, T>(
            self.gemv.qs@,
            self.gemv.d@,
            self.gemv.x@,
            self.gemv.k_in as int,
            self.gemv.m_out as int,
            self.gemv.rows_per_group as int,
        )
    }

    fn at(&self, r: usize, c: usize) -> (v: T) {
        let g = &self.gemv;
        assert(g.x@.len() == g.x.len());
        let base = batch_base(
            Ghost(g.x@.len() as int),
            g.k_in,
            g.m_out,
            g.rows_per_group,
            Ghost(self.tokens as int),
            r,
        );
        proof {
            lemma_batch(
                g.x@.len() as int,
                g.k_in as int,
                g.m_out as int,
                g.rows_per_group as int,
                self.tokens as int,
                r as int,
            );
        }
        T::narrow(g.dot(base, c))
    }
}

struct Q4Gemv<'a, A, D, T> {
    qs: &'a [u32],
    d: &'a [D],
    x: &'a [T],
    k_in: usize,
    m_out: usize,
    rows_per_group: usize,
    per: usize,
    pair: usize,
    how: Finish<A>,
}

/// A group boundary never parts an even row from the odd row after it.
pub open spec fn pairs_share_slices(m_out: int, rows_per_group: int) -> bool {
    rows_per_group % 2 == 0 || rows_per_group >= m_out
}

proof fn lemma_pair(m_out: int, rows_per_group: int, row: int)
    requires
        pairs_share_slices(m_out, rows_per_group),
        0 < rows_per_group,
        0 <= row < m_out,
    ensures
        (row / 2 * 2) / rows_per_group == row / rows_per_group,
{
    if rows_per_group >= m_out {
        vstd::arithmetic::div_mod::lemma_basic_div(row, rows_per_group);
        vstd::arithmetic::div_mod::lemma_basic_div(row / 2 * 2, rows_per_group);
    } else {
        let q = row / rows_per_group;
        let e = row % rows_per_group;
        vstd::arithmetic::div_mod::lemma_fundamental_div_mod(row, rows_per_group);
        vstd::arithmetic::div_mod::lemma_mod_bound(row, rows_per_group);
        let h = rows_per_group / 2;
        assert(rows_per_group * q == 2 * (h * q) && q * rows_per_group == 2 * (h * q))
            by (nonlinear_arith)
            requires
                rows_per_group == 2 * h,
        ;
        assert(row / 2 * 2 == rows_per_group * q + e / 2 * 2);
        vstd::arithmetic::div_mod::lemma_fundamental_div_mod_converse(
            row / 2 * 2,
            rows_per_group,
            q,
            e / 2 * 2,
        );
    }
}

impl<'a, A: Scalar, D: Storage<A>, T: Storage<A>> Q4Gemv<'a, A, D, T> {
    spec fn fits(&self) -> bool {
        &&& q4_fits(self.qs@, self.d@, self.k_in as int, self.m_out as int)
        &&& self.k_in <= u32::MAX
        &&& self.per == 8 || self.per == 32
        &&& self.pair == 1 || (self.pair == 2 && pairs_share_slices(
            self.m_out as int,
            self.rows_per_group as int,
        ))
        &&& self.rows_per_group > 0
    }

    fn dot(&self, base: usize, row: usize) -> (r: A)
        requires
            self.fits(),
            row < self.m_out,
            slices_fit(
                self.x@.len() as int,
                base as int,
                self.k_in as int,
                self.m_out as int,
                self.rows_per_group as int,
            ),
        ensures
            r == q4_dot::<A, D, T>(
                self.qs@,
                self.d@,
                self.x@,
                slice_of(base as int, self.k_in as int, self.rows_per_group as int, row as int),
                self.k_in as int,
                row as int,
                self.per as int,
            ),
    {
        proof {
            lemma_slice(
                self.x@.len() as int,
                base as int,
                self.k_in as int,
                self.m_out as int,
                self.rows_per_group as int,
                row as int,
            );
            assert(self.x@.len() == self.x.len());
            if self.pair == 2 {
                lemma_pair(self.m_out as int, self.rows_per_group as int, row as int);
            }
        }
        let bpr: usize = self.k_in / 32;
        let units: usize = if self.per == 8 {
            bpr * 4
        } else {
            bpr
        };
        let lead: usize = if self.pair == 2 {
            row / 2 * 2
        } else {
            row
        };
        run_group(
            &Q4Units {
                row: Q4Row {
                    qs: self.qs,
                    d: self.d,
                    x: self.x,
                    off: base + (lead / self.rows_per_group) * self.k_in,
                    k_in: self.k_in,
                    row,
                    rows: Ghost(self.m_out as int),
                },
                per: self.per,
            },
            units,
            32,
        )
    }
}

impl<'a, A: Scalar, D: Storage<A>, T: Storage<A>> RowWork<T> for Q4Gemv<'a, A, D, T> {
    closed spec fn ready(&self) -> bool {
        &&& self.fits()
        &&& slices_fit(
            self.x@.len() as int,
            0,
            self.k_in as int,
            self.m_out as int,
            self.rows_per_group as int,
        )
    }

    closed spec fn rows(&self) -> int {
        self.m_out as int
    }

    closed spec fn values(&self, before: Seq<T>) -> spec_fn(int) -> T {
        q4_outputs::<A, D, T>(
            self.how,
            before,
            self.qs@,
            self.d@,
            self.x@,
            self.k_in as int,
            self.rows_per_group as int,
            self.per as int,
        )
    }

    fn row(&self, prev: T, r: usize, before: Ghost<Seq<T>>) -> (v: T) {
        finish(&self.how, prev, self.dot(0, r))
    }
}

struct Q4Batch<'a, A, D, T> {
    gemv: Q4Gemv<'a, A, D, T>,
    candidates: usize,
}

impl<'a, A: Scalar, D: Storage<A>, T: Storage<A>> GridWork<T> for Q4Batch<'a, A, D, T> {
    closed spec fn ready(&self) -> bool {
        &&& self.gemv.fits()
        &&& self.gemv.per == 8
        &&& batch_fits(
            self.gemv.x@.len() as int,
            self.gemv.k_in as int,
            self.gemv.m_out as int,
            self.gemv.rows_per_group as int,
            self.candidates as int,
        )
    }

    closed spec fn rows(&self) -> int {
        self.candidates as int
    }

    closed spec fn cols(&self) -> int {
        self.gemv.m_out as int
    }

    closed spec fn values(&self) -> spec_fn(int, int) -> T {
        q4_batch::<A, D, T>(
            self.gemv.qs@,
            self.gemv.d@,
            self.gemv.x@,
            self.gemv.k_in as int,
            self.gemv.m_out as int,
            self.gemv.rows_per_group as int,
        )
    }

    fn at(&self, r: usize, c: usize) -> (v: T) {
        let g = &self.gemv;
        assert(g.x@.len() == g.x.len());
        let base = batch_base(
            Ghost(g.x@.len() as int),
            g.k_in,
            g.m_out,
            g.rows_per_group,
            Ghost(self.candidates as int),
            r,
        );
        proof {
            lemma_batch(
                g.x@.len() as int,
                g.k_in as int,
                g.m_out as int,
                g.rows_per_group as int,
                self.candidates as int,
                r as int,
            );
        }
        T::narrow(g.dot(base, c))
    }
}

/// Q8 GEMV, a lane per block: `out[r] = sum_k dequant(W[r, k]) * x[k]`.
pub fn iron_gemv_q8<A: Scalar, D: Storage<A>, T: Storage<A>>(
    qs: &[u32],
    d_f32: &[D],
    x: &[T],
    out: &mut Vec<T>,
    k_in: u32,
    m_out: u32,
)
    requires
        q8_fits(qs@, d_f32@, k_in as int, m_out as int),
        k_in as int / 32 * 32 <= x@.len(),
        m_out <= old(out)@.len(),
        m_out < u32::MAX,
    ensures
        filled(
            old(out)@,
            final(out)@,
            m_out as int,
            q8_outputs::<A, D, T>(
                Finish::Plain,
                old(out)@,
                qs@,
                d_f32@,
                x@,
                k_in as int,
                m_out as int,
                32,
            ),
        ),
{
    if m_out > 0 {
        proof {
            vstd::arithmetic::div_mod::lemma_basic_div(m_out - 1, m_out as int);
            assert(slice_of(0, k_in as int, m_out as int, m_out - 1) == 0);
        }
        let work = Q8Gemv::<A, D, T> {
            qs,
            d: d_f32,
            x,
            k_in: k_in as usize,
            m_out: m_out as usize,
            rows_per_group: m_out as usize,
            stride: 32,
            how: Finish::Plain,
        };
        fill_rows(&work, out, m_out as usize, 1);
    }
}

/// Q8 GEMV with a slice of `x` per group of rows, a lane per block.
pub fn iron_grouped_gemv_q8<A: Scalar, D: Storage<A>, T: Storage<A>>(
    qs: &[u32],
    d_f32: &[D],
    x: &[T],
    out: &mut Vec<T>,
    k_in: u32,
    m_out: u32,
    rows_per_group: u32,
)
    requires
        q8_fits(qs@, d_f32@, k_in as int, m_out as int),
        slices_fit(x@.len() as int, 0, k_in as int, m_out as int, rows_per_group as int),
        m_out <= old(out)@.len(),
        m_out < u32::MAX,
    ensures
        filled(
            old(out)@,
            final(out)@,
            m_out as int,
            q8_outputs::<A, D, T>(
                Finish::Plain,
                old(out)@,
                qs@,
                d_f32@,
                x@,
                k_in as int,
                rows_per_group as int,
                32,
            ),
        ),
{
    let work = Q8Gemv::<A, D, T> {
        qs,
        d: d_f32,
        x,
        k_in: k_in as usize,
        m_out: m_out as usize,
        rows_per_group: rows_per_group as usize,
        stride: 32,
        how: Finish::Plain,
    };
    fill_rows(&work, out, m_out as usize, 1);
}

/// Q8 GEMV, a lane per word.
pub fn iron_gemv_q8_coalesced<A: Scalar, D: Storage<A>, T: Storage<A>>(
    qs: &[u32],
    d_f32: &[D],
    x: &[T],
    out: &mut Vec<T>,
    k_in: u32,
    m_out: u32,
    rows_per_group: u32,
)
    requires
        q8_fits(qs@, d_f32@, k_in as int, m_out as int),
        slices_fit(x@.len() as int, 0, k_in as int, m_out as int, rows_per_group as int),
        m_out <= old(out)@.len(),
        m_out < u32::MAX,
    ensures
        filled(
            old(out)@,
            final(out)@,
            m_out as int,
            q8_outputs::<A, D, T>(
                Finish::Plain,
                old(out)@,
                qs@,
                d_f32@,
                x@,
                k_in as int,
                rows_per_group as int,
                4,
            ),
        ),
{
    let work = Q8Gemv::<A, D, T> {
        qs,
        d: d_f32,
        x,
        k_in: k_in as usize,
        m_out: m_out as usize,
        rows_per_group: rows_per_group as usize,
        stride: 4,
        how: Finish::Plain,
    };
    fill_rows(&work, out, m_out as usize, 1);
}

/// Q8 GEMV, a lane per word, with the activation fused: `out[r] = max(0, W[r] . x)^2`.
pub fn iron_gemv_q8_coalesced_relu2<A: Scalar, D: Storage<A>, T: Storage<A>>(
    qs: &[u32],
    d_f32: &[D],
    x: &[T],
    out: &mut Vec<T>,
    k_in: u32,
    m_out: u32,
    rows_per_group: u32,
)
    requires
        q8_fits(qs@, d_f32@, k_in as int, m_out as int),
        slices_fit(x@.len() as int, 0, k_in as int, m_out as int, rows_per_group as int),
        m_out <= old(out)@.len(),
        m_out < u32::MAX,
    ensures
        filled(
            old(out)@,
            final(out)@,
            m_out as int,
            q8_outputs::<A, D, T>(
                Finish::Relu2,
                old(out)@,
                qs@,
                d_f32@,
                x@,
                k_in as int,
                rows_per_group as int,
                4,
            ),
        ),
{
    let work = Q8Gemv::<A, D, T> {
        qs,
        d: d_f32,
        x,
        k_in: k_in as usize,
        m_out: m_out as usize,
        rows_per_group: rows_per_group as usize,
        stride: 4,
        how: Finish::Relu2,
    };
    fill_rows(&work, out, m_out as usize, 1);
}

/// Q8 GEMV, a lane per word, scaled and accumulated: `acc[r] += scale[0] * (W[r] . x)`.
pub fn iron_gemv_q8_coalesced_accum<A: Scalar, D: Storage<A>, T: Storage<A>>(
    qs: &[u32],
    d_f32: &[D],
    x: &[T],
    acc: &mut Vec<T>,
    scale: &[A],
    k_in: u32,
    m_out: u32,
    rows_per_group: u32,
)
    requires
        q8_fits(qs@, d_f32@, k_in as int, m_out as int),
        slices_fit(x@.len() as int, 0, k_in as int, m_out as int, rows_per_group as int),
        m_out <= old(acc)@.len(),
        m_out < u32::MAX,
        scale@.len() > 0,
    ensures
        filled(
            old(acc)@,
            final(acc)@,
            m_out as int,
            q8_outputs::<A, D, T>(
                Finish::Axpy(scale@[0]),
                old(acc)@,
                qs@,
                d_f32@,
                x@,
                k_in as int,
                rows_per_group as int,
                4,
            ),
        ),
{
    let work = Q8Gemv::<A, D, T> {
        qs,
        d: d_f32,
        x,
        k_in: k_in as usize,
        m_out: m_out as usize,
        rows_per_group: rows_per_group as usize,
        stride: 4,
        how: Finish::Axpy(scale[0]),
    };
    fill_rows(&work, acc, m_out as usize, 1);
}

/// Q4 GEMV, a lane per word, `rows_per_tg` warps per threadgroup.
pub fn iron_gemv_q4_coalesced<A: Scalar, D: Storage<A>, T: Storage<A>>(
    qs: &[u32],
    d_f32: &[D],
    x: &[T],
    out: &mut Vec<T>,
    k_in: u32,
    m_out: u32,
    rows_per_group: u32,
    rows_per_tg: u32,
)
    requires
        q4_fits(qs@, d_f32@, k_in as int, m_out as int),
        slices_fit(x@.len() as int, 0, k_in as int, m_out as int, rows_per_group as int),
        m_out <= old(out)@.len(),
        rows_per_tg > 0,
        m_out + rows_per_tg <= u32::MAX,
    ensures
        filled(
            old(out)@,
            final(out)@,
            m_out as int,
            q4_outputs::<A, D, T>(
                Finish::Plain,
                old(out)@,
                qs@,
                d_f32@,
                x@,
                k_in as int,
                rows_per_group as int,
                8,
            ),
        ),
{
    let work = Q4Gemv::<A, D, T> {
        qs,
        d: d_f32,
        x,
        k_in: k_in as usize,
        m_out: m_out as usize,
        rows_per_group: rows_per_group as usize,
        per: 8,
        pair: 1,
        how: Finish::Plain,
    };
    fill_rows(&work, out, m_out as usize, rows_per_tg as usize);
}

/// Q4 GEMV, a lane per block: a block's 32 products are summed before they are scaled.
pub fn iron_gemv_q4_vec<A: Scalar, D: Storage<A>, T: Storage<A>>(
    qs: &[u32],
    d_f32: &[D],
    x: &[T],
    out: &mut Vec<T>,
    k_in: u32,
    m_out: u32,
    rows_per_group: u32,
)
    requires
        q4_fits(qs@, d_f32@, k_in as int, m_out as int),
        slices_fit(x@.len() as int, 0, k_in as int, m_out as int, rows_per_group as int),
        m_out <= old(out)@.len(),
        m_out < u32::MAX,
    ensures
        filled(
            old(out)@,
            final(out)@,
            m_out as int,
            q4_outputs::<A, D, T>(
                Finish::Plain,
                old(out)@,
                qs@,
                d_f32@,
                x@,
                k_in as int,
                rows_per_group as int,
                32,
            ),
        ),
{
    let work = Q4Gemv::<A, D, T> {
        qs,
        d: d_f32,
        x,
        k_in: k_in as usize,
        m_out: m_out as usize,
        rows_per_group: rows_per_group as usize,
        per: 32,
        pair: 1,
        how: Finish::Plain,
    };
    fill_rows(&work, out, m_out as usize, 1);
}

/// Q4 GEMV, two rows per warp over one slice of `x`, that of the even row.
pub fn iron_gemv_q4_coalesced_2row<A: Scalar, D: Storage<A>, T: Storage<A>>(
    qs: &[u32],
    d_f32: &[D],
    x: &[T],
    out: &mut Vec<T>,
    k_in: u32,
    m_out: u32,
    rows_per_group: u32,
    rows_per_tg: u32,
)
    requires
        q4_fits(qs@, d_f32@, k_in as int, m_out as int),
        slices_fit(x@.len() as int, 0, k_in as int, m_out as int, rows_per_group as int),
        pairs_share_slices(m_out as int, rows_per_group as int),
        m_out <= old(out)@.len(),
        rows_per_tg > 0,
        m_out + 2 * rows_per_tg <= u32::MAX,
    ensures
        filled(
            old(out)@,
            final(out)@,
            m_out as int,
            q4_outputs::<A, D, T>(
                Finish::Plain,
                old(out)@,
                qs@,
                d_f32@,
                x@,
                k_in as int,
                rows_per_group as int,
                8,
            ),
        ),
{
    let work = Q4Gemv::<A, D, T> {
        qs,
        d: d_f32,
        x,
        k_in: k_in as usize,
        m_out: m_out as usize,
        rows_per_group: rows_per_group as usize,
        per: 8,
        pair: 2,
        how: Finish::Plain,
    };
    fill_rows(&work, out, m_out as usize, rows_per_tg as usize * 2);
}

/// Q4 GEMV of one weight matrix with `m` activation vectors.
pub fn iron_gemv_q4_multi<A: Scalar, D: Storage<A>, T: Storage<A>>(
    qs: &[u32],
    d_f32: &[D],
    x: &[T],
    out: &mut Vec<T>,
    k_in: u32,
    m_out: u32,
    rows_per_group: u32,
    rows_per_tg: u32,
    m: u32,
)
    requires
        q4_fits(qs@, d_f32@, k_in as int, m_out as int),
        batch_fits(x@.len() as int, k_in as int, m_out as int, rows_per_group as int, m as int),
        rows_per_tg > 0,
        m_out + rows_per_tg <= u32::MAX,
        m * m_out <= old(out)@.len(),
    ensures
        filled2(
            old(out)@,
            final(out)@,
            m as int,
            m_out as int,
            q4_batch::<A, D, T>(
                qs@,
                d_f32@,
                x@,
                k_in as int,
                m_out as int,
                rows_per_group as int,
            ),
        ),
{
    let work = Q4Batch::<A, D, T> {
        gemv: Q4Gemv {
            qs,
            d: d_f32,
            x,
            k_in: k_in as usize,
            m_out: m_out as usize,
            rows_per_group: rows_per_group as usize,
            per: 8,
            pair: 1,
            how: Finish::Plain,
        },
        candidates: m as usize,
    };
    fill_grid(&work, out, m as usize, m_out as usize, rows_per_tg as usize);
}

/// Q4 GEMV, a lane per word, with the activation fused: `out[r] = max(0, W[r] . x)^2`.
pub fn iron_gemv_q4_coalesced_relu2<A: Scalar, D: Storage<A>, T: Storage<A>>(
    qs: &[u32],
    d_f32: &[D],
    x: &[T],
    out: &mut Vec<T>,
    k_in: u32,
    m_out: u32,
    rows_per_group: u32,
    rows_per_tg: u32,
)
    requires
        q4_fits(qs@, d_f32@, k_in as int, m_out as int),
        slices_fit(x@.len() as int, 0, k_in as int, m_out as int, rows_per_group as int),
        m_out <= old(out)@.len(),
        rows_per_tg > 0,
        m_out + rows_per_tg <= u32::MAX,
    ensures
        filled(
            old(out)@,
            final(out)@,
            m_out as int,
            q4_outputs::<A, D, T>(
                Finish::Relu2,
                old(out)@,
                qs@,
                d_f32@,
                x@,
                k_in as int,
                rows_per_group as int,
                8,
            ),
        ),
{
    let work = Q4Gemv::<A, D, T> {
        qs,
        d: d_f32,
        x,
        k_in: k_in as usize,
        m_out: m_out as usize,
        rows_per_group: rows_per_group as usize,
        per: 8,
        pair: 1,
        how: Finish::Relu2,
    };
    fill_rows(&work, out, m_out as usize, rows_per_tg as usize);
}

/// Q4 GEMV, a lane per word, scaled and accumulated: `acc[r] += scale[0] * (W[r] . x)`.
pub fn iron_gemv_q4_coalesced_accum<A: Scalar, D: Storage<A>, T: Storage<A>>(
    qs: &[u32],
    d_f32: &[D],
    x: &[T],
    acc: &mut Vec<T>,
    scale: &[A],
    k_in: u32,
    m_out: u32,
    rows_per_group: u32,
    rows_per_tg: u32,
)
    requires
        q4_fits(qs@, d_f32@, k_in as int, m_out as int),
        slices_fit(x@.len() as int, 0, k_in as int, m_out as int, rows_per_group as int),
        m_out <= old(acc)@.len(),
        rows_per_tg > 0,
        m_out + rows_per_tg <= u32::MAX,
        scale@.len() > 0,
    ensures
        filled(
            old(acc)@,
            final(acc)@,
            m_out as int,
            q4_outputs::<A, D, T>(
                Finish::Axpy(scale@[0]),
                old(acc)@,
                qs@,
                d_f32@,
                x@,
                k_in as int,
                rows_per_group as int,
                8,
            ),
        ),
{
    let work = Q4Gemv::<A, D, T> {
        qs,
        d: d_f32,
        x,
        k_in: k_in as usize,
        m_out: m_out as usize,
        rows_per_group: rows_per_group as usize,
        per: 8,
        pair: 1,
        how: Finish::Axpy(scale[0]),
    };
    fill_rows(&work, acc, m_out as usize, rows_per_tg as usize);
}

/// Grouped Q8 GEMV over `n_tokens` activation rows, one token per threadgroup.
pub fn iron_grouped_gemv_q8_rows<A: Scalar, D: Storage<A>, T: Storage<A>>(
    qs: &[u32],
    d_f32: &[D],
    x: &[T],
    out: &mut Vec<T>,
    k_in: u32,
    m_out: u32,
    rows_per_group: u32,
    n_tokens: u32,
)
    requires
        q8_fits(qs@, d_f32@, k_in as int, m_out as int),
        batch_fits(
            x@.len() as int,
            k_in as int,
            m_out as int,
            rows_per_group as int,
            n_tokens as int,
        ),
        m_out < u32::MAX,
        n_tokens * m_out <= old(out)@.len(),
    ensures
        filled2(
            old(out)@,
            final(out)@,
            n_tokens as int,
            m_out as int,
            q8_batch::<A, D, T>(
                qs@,
                d_f32@,
                x@,
                k_in as int,
                m_out as int,
                rows_per_group as int,
            ),
        ),
{
    let work = Q8Batch::<A, D, T> {
        gemv: Q8Gemv {
            qs,
            d: d_f32,
            x,
            k_in: k_in as usize,
            m_out: m_out as usize,
            rows_per_group: rows_per_group as usize,
            stride: 32,
            how: Finish::Plain,
        },
        tokens: n_tokens as usize,
    };
    fill_grid(&work, out, n_tokens as usize, m_out as usize, 1);
}

/// Grouped Q8 GEMV over `n_tokens` activation rows, eight tokens per threadgroup: a weight
/// block is decoded once for all of them.
pub fn iron_grouped_gemv_q8_rows_tiled<A: Scalar, D: Storage<A>, T: Storage<A>>(
    qs: &[u32],
    d_f32: &[D],
    x: &[T],
    out: &mut Vec<T>,
    k_in: u32,
    m_out: u32,
    rows_per_group: u32,
    n_tokens: u32,
)
    requires
        q8_fits(qs@, d_f32@, k_in as int, m_out as int),
        batch_fits(
            x@.len() as int,
            k_in as int,
            m_out as int,
            rows_per_group as int,
            n_tokens as int,
        ),
        n_tokens + 8 <= u32::MAX,
        m_out < u32::MAX,
        n_tokens * m_out <= old(out)@.len(),
    ensures
        filled2(
            old(out)@,
            final(out)@,
            n_tokens as int,
            m_out as int,
            q8_batch::<A, D, T>(
                qs@,
                d_f32@,
                x@,
                k_in as int,
                m_out as int,
                rows_per_group as int,
            ),
        ),
{
    let work = Q8Batch::<A, D, T> {
        gemv: Q8Gemv {
            qs,
            d: d_f32,
            x,
            k_in: k_in as usize,
            m_out: m_out as usize,
            rows_per_group: rows_per_group as usize,
            stride: 32,
            how: Finish::Plain,
        },
        tokens: n_tokens as usize,
    };
    fill_grid_tiled(&work, out, n_tokens as usize, m_out as usize, 8);
}

/// In exact arithmetic a Q8 dot product is the plain sum of `d * q * x`, however the lanes
/// walk the row.
pub proof fn law_q8_dot_is_plain_sum<A: Scalar, D: Storage<A>, T: Storage<A>>(
    qs: Seq<u32>,
    d: Seq<D>,
    x: Seq<T>,
    off: int,
    k_in: int,
    row: int,
    stride: int,
)
    requires
        lossless::<A>(),
        0 <= k_in,
        stride == 4 || stride == 32,
    ensures
        q8_dot::<A, D, T>(qs, d, x, off, k_in, row, stride) == plain_sum(
            k_in / 32 * 32,
            q8_terms::<A, D, T>(qs, d, x, off, k_in, row),
        ),
{
    let terms = q8_terms::<A, D, T>(qs, d, x, off, k_in, row);
    if stride == 4 {
        law_reduction_is_plain_sum(32, k_in / 32 * 8, 4, terms);
    } else {
        law_reduction_is_plain_sum(32, k_in / 32, 32, terms);
    }
}

/// In exact arithmetic a Q4 dot product is the plain sum of `d * q * x`, whether the scale
/// meets words, blocks or single products.
pub proof fn law_q4_dot_is_plain_sum<A: Scalar, D: Storage<A>, T: Storage<A>>(
    qs: Seq<u32>,
    d: Seq<D>,
    x: Seq<T>,
    off: int,
    k_in: int,
    row: int,
    per: int,
)
    requires
        lossless::<A>(),
        0 <= k_in,
        per == 8 || per == 32,
    ensures
        q4_dot::<A, D, T>(qs, d, x, off, k_in, row, per) == plain_sum(
            k_in / 32 * 32,
            q4_single_terms::<A, D, T>(qs, d, x, off, k_in, row),
        ),
{
    let terms = q4_terms::<A, D, T>(qs, d, x, off, k_in, row, per);
    let singles = q4_single_terms::<A, D, T>(qs, d, x, off, k_in, row);
    let prods = q4_products::<A, T>(qs, x, off, k_in, row);
    let n = if per == 8 {
        k_in / 32 * 4
    } else {
        k_in / 32
    };
    law_reduction_is_plain_sum(32, n, 1, terms);
    lemma_units(0, n, per, singles);
    assert forall|j: int| 0 <= j < n implies #[trigger] terms(j) == (unit_sums(per, singles))(j) by {
        let c: A = cell(d, k_in / 32, row, j * per / 32).widen_spec();
        assert forall|k: int| j * per <= k < j * per + per implies #[trigger] singles(k)
            == c.times_spec(prods(k)) by {
            lemma_one_block(j, per, k);
            times_assoc(c, whole(q4_code(qs, k_in, row, k)), x[off + k].widen_spec());
        }
        lemma_sum_factor(c, j * per, per, prods, singles);
    }
    lemma_sum_same(whole(0), 0, n, terms, unit_sums(per, singles));
    assert(n * 1 == n && 0 * per == 0);
    assert(n * per == k_in / 32 * 32);
}

/// The columns of a unit share a block.
proof fn lemma_one_block(j: int, per: int, k: int)
    requires
        0 <= j,
        per == 8 || per == 32,
        j * per <= k < j * per + per,
    ensures
        k / 32 == j * per / 32,
{
    if per == 8 {
        assert(j * per == j * 8);
    } else {
        assert(j * per == j * 32);
    }
}

/// Every candidate of a batched GEMV gets, bit for bit, what the single-vector GEMV gives on
/// its own activations.
pub proof fn law_candidates_are_single<A: Scalar, D: Storage<A>, T: Storage<A>>(
    before: Seq<T>,
    qs: Seq<u32>,
    d: Seq<D>,
    x: Seq<T>,
    k_in: int,
    m_out: int,
    rows_per_group: int,
    t: int,
    row: int,
)
    requires
        0 <= k_in,
        0 < rows_per_group,
        m_out % rows_per_group == 0,
        0 <= row < m_out,
        0 <= t,
        (t + 1) * (m_out / rows_per_group * k_in) <= x.len(),
    ensures
        (q4_batch::<A, D, T>(qs, d, x, k_in, m_out, rows_per_group))(t, row) == (q4_outputs::<
            A,
            D,
            T,
        >(
            Finish::Plain,
            before,
            qs,
            d,
            x.subrange(
                t * (m_out / rows_per_group * k_in),
                (t + 1) * (m_out / rows_per_group * k_in),
            ),
            k_in,
            rows_per_group,
            8,
        ))(row),
{
    let stride = m_out / rows_per_group * k_in;
    let own = x.subrange(t * stride, (t + 1) * stride);
    let off = slice_of(0, k_in, rows_per_group, row);
    lemma_own_slice(k_in, m_out, rows_per_group, row, t);
    let f = q4_terms::<A, D, T>(qs, d, x, t * stride + off, k_in, row, 8);
    let g = q4_terms::<A, D, T>(qs, d, own, off, k_in, row, 8);
    let n = k_in / 32 * 4;
    assert forall|j: int| 0 <= j < n * 1 implies #[trigger] f(j) == g(j) by {
        let (p, q) = (
            q4_products::<A, T>(qs, x, t * stride + off, k_in, row),
            q4_products::<A, T>(qs, own, off, k_in, row),
        );
        assert forall|k: int| j * 8 <= k < j * 8 + 8 implies #[trigger] p(k) == q(k) by {
            assert(own[off + k] == x[t * stride + off + k]);
        }
        lemma_sum_same(whole::<A>(0), j * 8, 8, p, q);
    }
    law_equal_terms_reduce_alike(32, n, 1, f, g);
    assert(slice_of(t * stride, k_in, rows_per_group, row) == t * stride + off);
}

/// Every token of a batched Q8 GEMV gets, bit for bit, what the single-token GEMV gives on
/// its own activations.
pub proof fn law_tokens_are_single<A: Scalar, D: Storage<A>, T: Storage<A>>(
    before: Seq<T>,
    qs: Seq<u32>,
    d: Seq<D>,
    x: Seq<T>,
    k_in: int,
    m_out: int,
    rows_per_group: int,
    token: int,
    row: int,
)
    requires
        0 <= k_in,
        0 < rows_per_group,
        m_out % rows_per_group == 0,
        0 <= row < m_out,
        0 <= token,
        (token + 1) * (m_out / rows_per_group * k_in) <= x.len(),
    ensures
        (q8_batch::<A, D, T>(qs, d, x, k_in, m_out, rows_per_group))(token, row) == (q8_outputs::<
            A,
            D,
            T,
        >(
            Finish::Plain,
            before,
            qs,
            d,
            x.subrange(
                token * (m_out / rows_per_group * k_in),
                (token + 1) * (m_out / rows_per_group * k_in),
            ),
            k_in,
            rows_per_group,
            32,
        ))(row),
{
    let stride = m_out / rows_per_group * k_in;
    let own = x.subrange(token * stride, (token + 1) * stride);
    let off = slice_of(0, k_in, rows_per_group, row);
    lemma_own_slice(k_in, m_out, rows_per_group, row, token);
    let f = q8_terms::<A, D, T>(qs, d, x, token * stride + off, k_in, row);
    let g = q8_terms::<A, D, T>(qs, d, own, off, k_in, row);
    let n = k_in / 32;
    assert forall|k: int| 0 <= k < n * 32 implies #[trigger] f(k) == g(k) by {
        assert(own[off + k] == x[token * stride + off + k]);
    }
    law_equal_terms_reduce_alike(32, n, 32, f, g);
    assert(slice_of(token * stride, k_in, rows_per_group, row) == token * stride + off);
}

/// A row's slice lies inside its batch row's activations.
proof fn lemma_own_slice(k_in: int, m_out: int, rows_per_group: int, row: int, t: int)
    requires
        0 <= k_in,
        0 < rows_per_group,
        m_out % rows_per_group == 0,
        0 <= row < m_out,
        0 <= t,
    ensures
        0 <= slice_of(0, k_in, rows_per_group, row),
        slice_of(0, k_in, rows_per_group, row) + k_in <= m_out / rows_per_group * k_in,
        0 <= t * (m_out / rows_per_group * k_in),
        (t + 1) * (m_out / rows_per_group * k_in) == t * (m_out / rows_per_group * k_in) + (m_out
            / rows_per_group * k_in),
{
    let groups = m_out / rows_per_group;
    let g = row / rows_per_group;
    vstd::arithmetic::div_mod::lemma_fundamental_div_mod(m_out, rows_per_group);
    vstd::arithmetic::div_mod::lemma_fundamental_div_mod(row, rows_per_group);
    vstd::arithmetic::div_mod::lemma_mod_bound(row, rows_per_group);
    vstd::arithmetic::div_mod::lemma_div_pos_is_pos(row, rows_per_group);
    assert(g < groups) by (nonlinear_arith)
        requires
            rows_per_group * g <= row < m_out,
            m_out == rows_per_group * groups,
            rows_per_group > 0,
    ;
    assert(0 <= g * k_in && g * k_in + k_in <= groups * k_in) by (nonlinear_arith)
        requires
            0 <= g,
            g + 1 <= groups,
            0 <= k_in,
    ;
    let stride = groups * k_in;
    assert(0 <= t * stride && (t + 1) * stride == t * stride + stride) by (nonlinear_arith)
        requires
            0 <= t,
            0 <= stride,
    ;
}

} // verus!
