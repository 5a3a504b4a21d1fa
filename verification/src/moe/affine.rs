//! Affine expert weights: packed unsigned codes under one scale and bias per group.
use crate::exact::{
    keeps, law_padded_product_is_plain_sum, lemma_sum_same, lossless, times_comm,
};
use crate::gemm::dequant_gemv::{
    affine_row, affine_terms, law_affine_row_is_plain_sum, lemma_group_in, lemma_pack,
};
use crate::moe::gather::finished;
use crate::moe::nvfp4::{lemma_row_bound, lemma_stack};
use crate::primitives::{code_at, lemma_field, lemma_window_bound};
use crate::scalar::{round, rounded, whole, Scalar, Storage};
use crate::tensor::{cell, read};
use crate::tile::{fma_terms, mma_cell, TileSource};
use std::marker::PhantomData;
use vstd::prelude::*;

verus! {

/// Activations as they are staged: row `rows[r]`, rounded; zeros past the last column.
pub open spec fn staged_rows<A: Scalar, S: Storage<A>, T: Storage<A>>(
    x: Seq<T>,
    rows: spec_fn(int) -> int,
    k_in: int,
) -> spec_fn(int, int) -> A {
    |r: int, k: int|
        if k < k_in {
            rounded::<A, S>(cell(x, k_in, rows(r), k).widen_spec())
        } else {
            whole(0)
        }
}

/// The weights of one expert as they are staged: `scale * q + bias`, rounded; zeros past
/// the last column. Column `k` takes the scale and bias of its group `k / group_size`.
#[allow(clippy::too_many_arguments)]
pub open spec fn affine_weights<A: Scalar, S: Storage<A>, T: Storage<A>>(
    bits: int,
    w: Seq<u32>,
    scales: Seq<T>,
    biases: Seq<T>,
    n_out: int,
    k_in: int,
    group_size: int,
    expert: int,
) -> spec_fn(int, int) -> A {
    |col: int, k: int|
        if k < k_in {
            let row = expert * n_out + col;
            let g = k / group_size;
            rounded::<A, S>(
                cell(scales, k_in / group_size, row, g).widen_spec().times_spec(
                    whole::<A>(code_at(w, row * (k_in * bits / 32), bits, k) as int),
                ).plus_spec(cell(biases, k_in / group_size, row, g).widen_spec()),
            )
        } else {
            whole(0)
        }
}

/// The outputs of routed rows, in steps of 32 columns, the last one filled up with zeros.
#[allow(clippy::too_many_arguments)]
pub open spec fn affine_outputs<A: Scalar, S: Storage<A>, T: Storage<A>>(
    bits: int,
    x: Seq<T>,
    w: Seq<u32>,
    scales: Seq<T>,
    biases: Seq<T>,
    indices: Seq<u32>,
    n_out: int,
    k_in: int,
    group_size: int,
) -> spec_fn(int, int) -> T {
    |r: int, c: int|
        finished::<A, T>(
            None,
            mma_cell(
                staged_rows::<A, S, T>(x, source_rows(None), k_in),
                affine_weights::<A, S, T>(
                    bits,
                    w,
                    scales,
                    biases,
                    n_out,
                    k_in,
                    group_size,
                    indices[r] as int,
                ),
                r,
                c,
                32,
                (k_in + 31) / 32,
            ),
        )
}

/// Stacks of `experts` experts fit their buffers.
pub open spec fn affine_stack_fits<T>(
    bits: int,
    w: Seq<u32>,
    scales: Seq<T>,
    biases: Seq<T>,
    n_out: int,
    k_in: int,
    group_size: int,
    experts: int,
) -> bool {
    &&& experts * n_out * (k_in * bits / 32) <= w.len()
    &&& experts * n_out * (k_in / group_size) <= scales.len()
    &&& experts * n_out * (k_in / group_size) <= biases.len()
}

/// The activation row of output row `r`.
pub open spec fn source_rows(map: Option<Seq<u32>>) -> spec_fn(int) -> int {
    |r: int|
        match map {
            Some(m) => m[r] as int,
            None => r,
        }
}

/// The contents of a row map.
pub open spec fn map_view(map: Option<&[u32]>) -> Option<Seq<u32>> {
    match map {
        Some(m) => Some(m@),
        None => None,
    }
}

/// Activations and expert weights, staged through `S`.
pub(crate) struct AffineTiles<'a, S, T> {
    pub bits: u32,
    pub x: &'a [T],
    pub w: &'a [u32],
    pub scales: &'a [T],
    pub biases: &'a [T],
    pub map: Option<&'a [u32]>,
    pub n_out: usize,
    pub k_in: usize,
    pub group_size: usize,
    pub rows: usize,
    pub depth: usize,
    pub stage: PhantomData<S>,
}

impl<'a, A: Scalar, S: Storage<A>, T: Storage<A>> TileSource<A> for AffineTiles<'a, S, T> {
    open spec fn ready(&self) -> bool {
        &&& self.bits == 2 || self.bits == 4 || self.bits == 8
        &&& self.group_size > 0
        &&& self.k_in as int % (32int / self.bits as int) == 0
        &&& self.k_in as int % self.group_size as int == 0
        &&& self.k_in <= self.depth
        &&& self.map is None ==> self.rows * self.k_in <= self.x@.len()
        &&& self.map matches Some(m) ==> {
            &&& self.rows <= m@.len()
            &&& forall|r: int|
                0 <= r < self.rows ==> (#[trigger] m@[r] + 1) * self.k_in <= self.x@.len()
        }
    }

    open spec fn depth(&self) -> int {
        self.depth as int
    }

    open spec fn has_row(&self, row: int) -> bool {
        0 <= row < self.rows
    }

    open spec fn has_expert(&self, expert: int) -> bool {
        &&& 0 <= expert
        &&& affine_stack_fits(
            self.bits as int,
            self.w@,
            self.scales@,
            self.biases@,
            self.n_out as int,
            self.k_in as int,
            self.group_size as int,
            expert + 1,
        )
    }

    open spec fn cols(&self) -> int {
        self.n_out as int
    }

    open spec fn unit(&self) -> int {
        32int / self.bits as int
    }

    open spec fn x_at(&self) -> spec_fn(int, int) -> A {
        staged_rows::<A, S, T>(self.x@, source_rows(map_view(self.map)), self.k_in as int)
    }

    open spec fn w_at(&self, expert: int) -> spec_fn(int, int) -> A {
        affine_weights::<A, S, T>(
            self.bits as int,
            self.w@,
            self.scales@,
            self.biases@,
            self.n_out as int,
            self.k_in as int,
            self.group_size as int,
            expert,
        )
    }

    fn x(&self, row: usize, k: usize) -> (r: A) {
        if k < self.k_in {
            match self.map {
                Some(m) => {
                    let from: u32 = m[row];
                    let v: A = read(
                        self.x,
                        Ghost(from + 1),
                        self.k_in,
                        from as usize,
                        k,
                    ).widen();
                    round::<A, S>(v)
                },
                None => {
                    let v: A = read(self.x, Ghost(self.rows as int), self.k_in, row, k).widen();
                    round::<A, S>(v)
                },
            }
        } else {
            A::dyadic(0, 0)
        }
    }

    fn w(&self, expert: usize, col: usize, k0: usize, ws: &mut Vec<A>, at: usize) {
        let vals: usize = 32 / (self.bits as usize);
        let ghost was = ws@;
        let bits: u32 = self.bits;
        assert(ws@.len() == ws.len());
        if k0 < self.k_in {
            let ghost stack = (expert + 1) * self.n_out;
            let ghost u = k0 as int / vals as int;
            proof {
                lemma_whole_unit(self.k_in as int, vals as int, k0 as int);
                lemma_pack(bits as int, self.k_in as int, u, 0);
                lemma_field(0, 0, bits);
                lemma_stack(expert as int, self.n_out as int, col as int);
                lemma_row_bound(stack, self.k_in as int / vals as int, self.w@.len() as int);
                assert(self.w@.len() == self.w.len());
            }
            let row: usize = expert * self.n_out + col;
            let groups: usize = self.k_in / self.group_size;
            let packed: u32 = read(self.w, Ghost(stack), self.k_in / vals, row, k0 / vals);
            let mask: u32 = (1u32 << bits) - 1u32;
            let mut j: usize = 0;
            while j < vals
                invariant
                    j <= vals,
                    self.ready(),
                    bits == self.bits,
                    vals == 32int / bits as int,
                    mask == ((1u32 << bits) - 1) as u32,
                    u == k0 as int / vals as int,
                    k0 == u * vals,
                    0 <= u,
                    k0 + vals <= self.k_in,
                    at + vals <= was.len() <= usize::MAX,
                    ws@.len() == was.len(),
                    row == expert * self.n_out + col,
                    packed == cell(
                        self.w@,
                        self.k_in as int / vals as int,
                        row as int,
                        k0 as int / vals as int,
                    ),
                    row < stack,
                    groups == self.k_in as int / self.group_size as int,
                    stack * groups <= self.scales@.len(),
                    stack * groups <= self.biases@.len(),
                    forall|i: int|
                        0 <= i < j ==> #[trigger] ws@[at + i] == (self.w_at(expert as int))(
                            col as int,
                            k0 + i,
                        ),
                    forall|i: int|
                        0 <= i < was.len() && !(at <= i < at + vals) ==> #[trigger] ws@[i]
                            == was[i],
                decreases vals - j,
            {
                proof {
                    lemma_pack(bits as int, self.k_in as int, u, j as int);
                    lemma_field(packed, (j * bits) as u32, bits);
                    lemma_window_bound(packed, packed, (j * bits) as u32, bits);
                    lemma_group_in(self.k_in as int, self.group_size as int, k0 + j);
                }
                let g: usize = (k0 + j) / self.group_size;
                let scale: A = read(self.scales, Ghost(stack), groups, row, g).widen();
                let bias: A = read(self.biases, Ghost(stack), groups, row, g).widen();
                let q: u32 = (packed >> ((j as u32) * bits)) & mask;
                ws[at + j] = round::<A, S>(scale.times(A::dyadic(q as i64, 0)).plus(bias));
                j = j + 1;
            }
        } else {
            let mut j: usize = 0;
            while j < vals
                invariant
                    j <= vals,
                    vals == 32int / self.bits as int,
                    k0 >= self.k_in,
                    at + vals <= was.len() <= usize::MAX,
                    ws@.len() == was.len(),
                    forall|i: int|
                        0 <= i < j ==> #[trigger] ws@[at + i] == (self.w_at(expert as int))(
                            col as int,
                            k0 + i,
                        ),
                    forall|i: int|
                        0 <= i < was.len() && !(at <= i < at + vals) ==> #[trigger] ws@[i]
                            == was[i],
                decreases vals - j,
            {
                ws[at + j] = A::dyadic(0, 0);
                j = j + 1;
            }
        }
    }
}

/// In exact arithmetic the product of a row with one expert's weights is what the dequantising
/// GEMV gives on that row, over the stack of all experts as one matrix.
#[allow(clippy::too_many_arguments)]
pub proof fn law_expert_product_is_gemv<A: Scalar, S: Storage<A>, T: Storage<A>>(
    bits: int,
    x: Seq<T>,
    rows: spec_fn(int) -> int,
    w: Seq<u32>,
    scales: Seq<T>,
    biases: Seq<T>,
    n_out: int,
    k_in: int,
    group_size: int,
    expert: int,
    r: int,
    c: int,
    bk: int,
    n: int,
    lanes: int,
)
    requires
        lossless::<A>(),
        keeps::<A, S>(),
        bits == 2 || bits == 4 || bits == 8,
        0 < group_size,
        k_in % (32int / bits) == 0,
        0 <= rows(r),
        rows(r) * k_in + k_in <= x.len(),
        0 <= bk,
        0 <= n,
        0 <= k_in <= n * bk,
        0 < lanes,
    ensures
        finished::<A, T>(
            None,
            mma_cell(
                staged_rows::<A, S, T>(x, rows, k_in),
                affine_weights::<A, S, T>(
                    bits,
                    w,
                    scales,
                    biases,
                    n_out,
                    k_in,
                    group_size,
                    expert,
                ),
                r,
                c,
                bk,
                n,
            ),
        ) == T::narrow_spec(
            affine_row::<A, T>(
                bits,
                w,
                scales,
                biases,
                x.subrange(rows(r) * k_in, rows(r) * k_in + k_in),
                k_in,
                group_size,
                expert * n_out + c,
                lanes,
            ),
        ),
{
    let own = x.subrange(rows(r) * k_in, rows(r) * k_in + k_in);
    let row = expert * n_out + c;
    let xs = staged_rows::<A, S, T>(x, rows, k_in);
    let ws = affine_weights::<A, S, T>(
        bits,
        w,
        scales,
        biases,
        n_out,
        k_in,
        group_size,
        expert,
    );
    let terms = affine_terms::<A, T>(bits, w, scales, biases, own, k_in, group_size, row);
    let staged = fma_terms(xs, ws, r, c);
    assert(0 <= rows(r) * k_in) by (nonlinear_arith)
        requires
            0 <= rows(r),
            0 <= k_in,
    ;
    assert forall|k: int| 0 <= k < k_in implies #[trigger] staged(k) == terms(k) by {
        assert(own[k] == x[rows(r) * k_in + k]);
        let g = k / group_size;
        let s: A = cell(scales, k_in / group_size, row, g).widen_spec();
        let b: A = cell(biases, k_in / group_size, row, g).widen_spec();
        let q: A = whole(code_at(w, row * (k_in * bits / 32), bits, k) as int);
        times_comm(s, q);
        let v: A = own[k].widen_spec();
        assert(rounded::<A, S>(v) == v);
        let weight = s.times_spec(q).plus_spec(b);
        assert(rounded::<A, S>(weight) == weight);
    }
    law_padded_product_is_plain_sum(xs, ws, r, c, bk, n, k_in);
    lemma_sum_same(whole(0), 0, k_in, staged, terms);
    law_affine_row_is_plain_sum::<A, T>(
        bits,
        w,
        scales,
        biases,
        own,
        k_in,
        group_size,
        row,
        lanes,
    );
}

/// A unit that starts inside rows of whole units ends inside them.
proof fn lemma_whole_unit(k_in: int, vals: int, k0: int)
    requires
        vals > 0,
        0 <= k0 < k_in,
        k_in % vals == 0,
        k0 % vals == 0,
    ensures
        k0 == (k0 / vals) * vals,
        0 <= k0 / vals < k_in / vals,
        k0 + vals <= k_in,
{
    vstd::arithmetic::div_mod::lemma_fundamental_div_mod(k_in, vals);
    vstd::arithmetic::div_mod::lemma_fundamental_div_mod(k0, vals);
    let (a, b) = (k_in / vals, k0 / vals);
    assert(0 <= b < a) by (nonlinear_arith)
        requires
            k_in == vals * a,
            k0 == vals * b,
            0 <= k0 < k_in,
            vals > 0,
    ;
    assert(vals * b + vals <= vals * a) by (nonlinear_arith)
        requires
            b + 1 <= a,
            vals > 0,
    ;
    assert(vals * b == b * vals) by (nonlinear_arith);
}

} // verus!
