//! Expert projections over Q4 weights, gathered by router slot.
use crate::exact::{
    keeps, law_reduction_is_plain_sum, lemma_sum_same, lemma_sum_start, lossless, plain_sum,
    times_zero,
};
use crate::gemm::gemv_quantized::law_q4_dot_is_plain_sum;
use crate::gemm::gemv_quantized::q4_dot;
use crate::gemm::packed_rows::{
    block_dot, holds_values, law_q4_dot_is_block_dot, q4_row_holds,
};
use crate::gemm::q4::{q4_fits, q4_single_terms, Q4Row, Q4Singles, Q4Units};
use crate::rows::{fill_grid, fill_rows, rectify, relu2, GridWork, RowWork};
use crate::scalar::{group_sum, rounded, run_group, sum_from, whole, Scalar, Storage};
use crate::tensor::{cell, filled, filled2, lemma_flat, read};
use std::marker::PhantomData;
use vstd::prelude::*;

verus! {

/// The `rows` weight rows of every slot's expert are there.
pub open spec fn experts_fit<D>(
    qs: Seq<u32>,
    d: Seq<D>,
    idx: Seq<u32>,
    k_in: int,
    rows: int,
    top_k: int,
) -> bool {
    &&& top_k <= idx.len()
    &&& forall|slot: int|
        0 <= slot < top_k ==> {
            &&& q4_fits(qs, d, k_in, (#[trigger] idx[slot] + 1) * rows)
            &&& (idx[slot] + 1) * rows <= u32::MAX
        }
}

/// Row `local` of slot `slot`'s expert, against the slot's activations.
pub open spec fn gathered<A: Scalar, D: Storage<A>, T: Storage<A>>(
    relu: bool,
    qs: Seq<u32>,
    d: Seq<D>,
    x: Seq<T>,
    idx: Seq<u32>,
    k_in: int,
    rows: int,
    x_stride: int,
) -> spec_fn(int, int) -> T {
    |slot: int, local: int|
        {
            let dot = q4_dot::<A, D, T>(
                qs,
                d,
                x,
                slot * x_stride,
                k_in,
                idx[slot] * rows + local,
                8,
            );
            T::narrow_spec(
                if relu {
                    relu2(dot)
                } else {
                    dot
                },
            )
        }
}

/// Each slot's share of output `h`: the router weight times the expert's dot product.
pub open spec fn weighted_terms<A: Scalar, D: Storage<A>, T: Storage<A>>(
    qs: Seq<u32>,
    d: Seq<D>,
    x: Seq<T>,
    idx: Seq<u32>,
    wts: Seq<A>,
    inter: int,
    hid: int,
    h: int,
) -> spec_fn(int) -> A {
    |slot: int|
        wts[slot].times_spec(
            group_sum(
                32,
                inter / 32 * 4,
                8,
                q4_single_terms::<A, D, T>(qs, d, x, slot * inter, inter, idx[slot] * hid + h),
            ),
        )
}

/// The accumulators after all slots' shares.
pub open spec fn weighted_rows<A: Scalar, D: Storage<A>, T: Storage<A>>(
    before: Seq<T>,
    qs: Seq<u32>,
    d: Seq<D>,
    x: Seq<T>,
    idx: Seq<u32>,
    wts: Seq<A>,
    inter: int,
    hid: int,
    top_k: int,
) -> spec_fn(int) -> T {
    |h: int|
        T::narrow_spec(
            before[h].widen_spec().plus_spec(
                sum_from(
                    whole::<A>(0),
                    0,
                    top_k,
                    weighted_terms::<A, D, T>(qs, d, x, idx, wts, inter, hid, h),
                ),
            ),
        )
}

/// Each slot's share of output `h`, read from the expert outputs.
pub open spec fn down_terms<A: Scalar, T: Storage<A>>(
    downs: Seq<T>,
    wts: Seq<A>,
    hid: int,
    h: int,
) -> spec_fn(int) -> A {
    |s: int| wts[s].times_spec(cell(downs, hid, s, h).widen_spec())
}

/// The accumulators after the expert outputs' weighted sum.
pub open spec fn summed_rows<A: Scalar, T: Storage<A>>(
    before: Seq<T>,
    downs: Seq<T>,
    wts: Seq<A>,
    hid: int,
    top_k: int,
) -> spec_fn(int) -> T {
    |h: int|
        T::narrow_spec(
            sum_from(before[h].widen_spec(), 0, top_k, down_terms::<A, T>(downs, wts, hid, h)),
        )
}

/// An expert's row, and the bounds of what it reads.
proof fn lemma_expert_row(e: int, rows: int, local: int)
    requires
        0 <= e,
        0 <= local < rows,
    ensures
        0 <= e * rows,
        e * rows + local < (e + 1) * rows,
{
    lemma_flat(e + 1, rows, e, local);
}

struct Gather<'a, A, D, T> {
    relu: bool,
    qs: &'a [u32],
    d: &'a [D],
    x: &'a [T],
    idx: &'a [u32],
    k_in: usize,
    rows: usize,
    top_k: usize,
    x_stride: usize,
    registers: PhantomData<A>,
}

impl<'a, A: Scalar, D: Storage<A>, T: Storage<A>> GridWork<T> for Gather<'a, A, D, T> {
    closed spec fn ready(&self) -> bool {
        &&& experts_fit(
            self.qs@,
            self.d@,
            self.idx@,
            self.k_in as int,
            self.rows as int,
            self.top_k as int,
        )
        &&& self.k_in <= u32::MAX
        &&& self.x_stride == 0 || self.x_stride == self.k_in
        &&& self.x_stride == 0 ==> self.k_in as int / 32 * 32 <= self.x@.len()
        &&& self.x_stride != 0 ==> self.top_k * self.k_in <= self.x@.len()
    }

    closed spec fn rows(&self) -> int {
        self.top_k as int
    }

    closed spec fn cols(&self) -> int {
        self.rows as int
    }

    closed spec fn values(&self) -> spec_fn(int, int) -> T {
        gathered::<A, D, T>(
            self.relu,
            self.qs@,
            self.d@,
            self.x@,
            self.idx@,
            self.k_in as int,
            self.rows as int,
            self.x_stride as int,
        )
    }

    fn at(&self, r: usize, c: usize) -> (v: T) {
        let g = self;
        let e: usize = g.idx[r] as usize;
        proof {
            lemma_expert_row(e as int, g.rows as int, c as int);
            assert(g.x@.len() == g.x.len());
            if g.x_stride != 0 {
                lemma_flat(g.top_k as int, g.k_in as int, r as int, 0);
            } else {
                assert(r * g.x_stride == 0);
            }
        }
        let dot: A = run_group(
            &Q4Units {
                row: Q4Row {
                    qs: g.qs,
                    d: g.d,
                    x: g.x,
                    off: r * g.x_stride,
                    k_in: g.k_in,
                    row: e * g.rows + c,
                    rows: Ghost((e + 1) * g.rows),
                },
                per: 8,
            },
            g.k_in / 32 * 4,
            32,
        );
        T::narrow(
            if g.relu {
                rectify(dot)
            } else {
                dot
            },
        )
    }
}

/// The expert up-projections with the activation fused, `rows_per_tg` warps per
/// threadgroup: `out[slot, r] = max(0, W[e, r] . x)^2` for the slot's expert `e`.
pub fn iron_moe_gather_q4_relu2<A: Scalar, D: Storage<A>, T: Storage<A>>(
    qs: &[u32],
    d_f32: &[D],
    x: &[T],
    idx: &[u32],
    out: &mut Vec<T>,
    k_in: u32,
    inter: u32,
    rows_per_tg: u32,
    top_k: u32,
)
    requires
        experts_fit(qs@, d_f32@, idx@, k_in as int, inter as int, top_k as int),
        k_in as int / 32 * 32 <= x@.len(),
        rows_per_tg > 0,
        inter + rows_per_tg <= u32::MAX,
        top_k * inter <= old(out)@.len(),
    ensures
        filled2(
            old(out)@,
            final(out)@,
            top_k as int,
            inter as int,
            gathered::<A, D, T>(true, qs@, d_f32@, x@, idx@, k_in as int, inter as int, 0),
        ),
{
    let work = Gather::<A, D, T> {
        relu: true,
        qs,
        d: d_f32,
        x,
        idx,
        k_in: k_in as usize,
        rows: inter as usize,
        top_k: top_k as usize,
        x_stride: 0,
        registers: PhantomData,
    };
    fill_grid(&work, out, top_k as usize, inter as usize, rows_per_tg as usize);
}

/// The expert down-projections, `rows_per_tg` warps per threadgroup:
/// `out[slot, h] = W[e, h] . x[slot]` for the slot's expert `e`.
pub fn iron_moe_gather_q4_down<A: Scalar, D: Storage<A>, T: Storage<A>>(
    qs: &[u32],
    d_f32: &[D],
    x: &[T],
    idx: &[u32],
    out: &mut Vec<T>,
    inter: u32,
    hid: u32,
    rows_per_tg: u32,
    top_k: u32,
)
    requires
        experts_fit(qs@, d_f32@, idx@, inter as int, hid as int, top_k as int),
        top_k * inter <= x@.len(),
        rows_per_tg > 0,
        hid + rows_per_tg <= u32::MAX,
        top_k * hid <= old(out)@.len(),
    ensures
        filled2(
            old(out)@,
            final(out)@,
            top_k as int,
            hid as int,
            gathered::<A, D, T>(
                false,
                qs@,
                d_f32@,
                x@,
                idx@,
                inter as int,
                hid as int,
                inter as int,
            ),
        ),
{
    let work = Gather::<A, D, T> {
        relu: false,
        qs,
        d: d_f32,
        x,
        idx,
        k_in: inter as usize,
        rows: hid as usize,
        top_k: top_k as usize,
        x_stride: inter as usize,
        registers: PhantomData,
    };
    fill_grid(&work, out, top_k as usize, hid as usize, rows_per_tg as usize);
}

struct DownAccum<'a, A, D, T> {
    qs: &'a [u32],
    d: &'a [D],
    x: &'a [T],
    idx: &'a [u32],
    wts: &'a [A],
    inter: usize,
    hid: usize,
    top_k: usize,
}

impl<'a, A: Scalar, D: Storage<A>, T: Storage<A>> RowWork<T> for DownAccum<'a, A, D, T> {
    closed spec fn ready(&self) -> bool {
        &&& experts_fit(
            self.qs@,
            self.d@,
            self.idx@,
            self.inter as int,
            self.hid as int,
            self.top_k as int,
        )
        &&& self.top_k <= self.wts@.len()
        &&& self.inter <= u32::MAX
        &&& self.top_k * self.inter <= self.x@.len()
    }

    closed spec fn rows(&self) -> int {
        self.hid as int
    }

    closed spec fn values(&self, before: Seq<T>) -> spec_fn(int) -> T {
        weighted_rows::<A, D, T>(
            before,
            self.qs@,
            self.d@,
            self.x@,
            self.idx@,
            self.wts@,
            self.inter as int,
            self.hid as int,
            self.top_k as int,
        )
    }

    #[verifier::loop_isolation(false)]
    fn row(&self, prev: T, r: usize, before: Ghost<Seq<T>>) -> (v: T) {
        let ghost terms = weighted_terms::<A, D, T>(
            self.qs@,
            self.d@,
            self.x@,
            self.idx@,
            self.wts@,
            self.inter as int,
            self.hid as int,
            r as int,
        );
        assert(self.x@.len() == self.x.len());
        let mut total: A = A::dyadic(0, 0);
        let mut slot: usize = 0;
        while slot < self.top_k
            invariant
                slot <= self.top_k,
                total == sum_from(whole::<A>(0), 0, slot as int, terms),
            decreases self.top_k - slot,
        {
            let e: usize = self.idx[slot] as usize;
            proof {
                lemma_expert_row(e as int, self.hid as int, r as int);
                if self.inter > 0 {
                    lemma_flat(self.top_k as int, self.inter as int, slot as int, 0);
                } else {
                    assert(slot * self.inter == 0) by (nonlinear_arith)
                        requires
                            self.inter == 0,
                    ;
                }
            }
            let dot: A = run_group(
                &Q4Singles(
                    Q4Row {
                        qs: self.qs,
                        d: self.d,
                        x: self.x,
                        off: slot * self.inter,
                        k_in: self.inter,
                        row: e * self.hid + r,
                        rows: Ghost((e + 1) * self.hid),
                    },
                ),
                self.inter / 32 * 4,
                32,
            );
            total = total.plus(self.wts[slot].times(dot));
            slot = slot + 1;
        }
        T::narrow(prev.widen().plus(total))
    }
}

/// The expert down-projections summed under their router weights into `acc`:
/// `acc[h] += sum_slot wts[slot] * (W[e, h] . x[slot])`.
pub fn iron_moe_gather_q4_down_accum<A: Scalar, D: Storage<A>, T: Storage<A>>(
    qs: &[u32],
    d_f32: &[D],
    x: &[T],
    idx: &[u32],
    wts: &[A],
    acc: &mut Vec<T>,
    inter: u32,
    hid: u32,
    top_k: u32,
)
    requires
        experts_fit(qs@, d_f32@, idx@, inter as int, hid as int, top_k as int),
        top_k * inter <= x@.len(),
        top_k <= wts@.len(),
        hid <= old(acc)@.len(),
        hid < u32::MAX,
    ensures
        filled(
            old(acc)@,
            final(acc)@,
            hid as int,
            weighted_rows::<A, D, T>(
                old(acc)@,
                qs@,
                d_f32@,
                x@,
                idx@,
                wts@,
                inter as int,
                hid as int,
                top_k as int,
            ),
        ),
{
    let work = DownAccum {
        qs,
        d: d_f32,
        x,
        idx,
        wts,
        inter: inter as usize,
        hid: hid as usize,
        top_k: top_k as usize,
    };
    fill_rows(&work, acc, hid as usize, 1);
}

struct WeightedSum<'a, A, T> {
    downs: &'a [T],
    wts: &'a [A],
    hid: usize,
    top_k: usize,
}

impl<'a, A: Scalar, T: Storage<A>> RowWork<T> for WeightedSum<'a, A, T> {
    closed spec fn ready(&self) -> bool {
        &&& self.top_k <= self.wts@.len()
        &&& self.top_k * self.hid <= self.downs@.len()
    }

    closed spec fn rows(&self) -> int {
        self.hid as int
    }

    closed spec fn values(&self, before: Seq<T>) -> spec_fn(int) -> T {
        summed_rows::<A, T>(before, self.downs@, self.wts@, self.hid as int, self.top_k as int)
    }

    #[verifier::loop_isolation(false)]
    fn row(&self, prev: T, r: usize, before: Ghost<Seq<T>>) -> (v: T) {
        let ghost terms = down_terms::<A, T>(self.downs@, self.wts@, self.hid as int, r as int);
        let mut t: A = prev.widen();
        let mut s: usize = 0;
        while s < self.top_k
            invariant
                s <= self.top_k,
                t == sum_from(prev.widen_spec(), 0, s as int, terms),
            decreases self.top_k - s,
        {
            let down: T = read(self.downs, Ghost(self.top_k as int), self.hid, s, r);
            t = t.plus(self.wts[s].times(down.widen()));
            s = s + 1;
        }
        T::narrow(t)
    }
}

/// The weighted sum of the expert outputs: `acc[h] += sum_slot wts[slot] * downs[slot, h]`.
pub fn iron_moe_weighted_sum<A: Scalar, T: Storage<A>>(
    downs: &[T],
    wts: &[A],
    acc: &mut Vec<T>,
    hid: u32,
    top_k: u32,
)
    requires
        top_k * hid <= downs@.len(),
        top_k <= wts@.len(),
        hid <= old(acc)@.len(),
        hid < u32::MAX,
    ensures
        filled(
            old(acc)@,
            final(acc)@,
            hid as int,
            summed_rows::<A, T>(old(acc)@, downs@, wts@, hid as int, top_k as int),
        ),
{
    let work = WeightedSum { downs, wts, hid: hid as usize, top_k: top_k as usize };
    fill_rows(&work, acc, hid as usize, 1);
}

/// In exact arithmetic the fused down-projection gives what the projections of all slots
/// and their weighted sum give in two dispatches.
#[allow(clippy::too_many_arguments)]
pub proof fn law_fused_down_is_two_dispatches<A: Scalar, D: Storage<A>, T: Storage<A>>(
    before: Seq<T>,
    downs: Seq<T>,
    qs: Seq<u32>,
    d: Seq<D>,
    x: Seq<T>,
    idx: Seq<u32>,
    wts: Seq<A>,
    inter: int,
    hid: int,
    top_k: int,
    h: int,
)
    requires
        lossless::<A>(),
        keeps::<A, T>(),
        0 <= inter,
        0 <= h < hid,
        forall|slot: int|
            0 <= slot < top_k ==> #[trigger] cell(downs, hid, slot, h) == (gathered::<A, D, T>(
                false,
                qs,
                d,
                x,
                idx,
                inter,
                hid,
                inter,
            ))(slot, h),
    ensures
        (weighted_rows::<A, D, T>(before, qs, d, x, idx, wts, inter, hid, top_k))(h)
            == (summed_rows::<A, T>(before, downs, wts, hid, top_k))(h),
{
    let fused = weighted_terms::<A, D, T>(qs, d, x, idx, wts, inter, hid, h);
    let parted = down_terms::<A, T>(downs, wts, hid, h);
    assert forall|slot: int| 0 <= slot < top_k implies #[trigger] fused(slot) == parted(slot) by {
        let row = idx[slot] * hid + h;
        let singles = q4_single_terms::<A, D, T>(qs, d, x, slot * inter, inter, row);
        law_q4_dot_is_plain_sum::<A, D, T>(qs, d, x, slot * inter, inter, row, 8);
        law_reduction_is_plain_sum(32, inter / 32 * 4, 8, singles);
        let dot = q4_dot::<A, D, T>(qs, d, x, slot * inter, inter, row, 8);
        assert(rounded::<A, T>(dot) == dot);
        assert(cell(downs, hid, slot, h) == T::narrow_spec(dot));
    }
    lemma_sum_same(whole(0), 0, top_k, fused, parted);
    lemma_sum_start(before[h].widen_spec(), 0, top_k, parted);
}

/// In exact arithmetic output `local` of a slot is row `local` of the slot's expert, against
/// the slot's activations; up-projections are squared where they are above zero.
#[allow(clippy::too_many_arguments)]
pub proof fn law_gathered_rows<A: Scalar, D: Storage<A>, T: Storage<A>>(
    relu: bool,
    qs: Seq<u32>,
    d: Seq<D>,
    x: Seq<T>,
    idx: Seq<u32>,
    before: Seq<T>,
    out: Seq<T>,
    k_in: int,
    rows: int,
    top_k: int,
    x_stride: int,
    slot: int,
    local: int,
    q: spec_fn(int) -> int,
    s: spec_fn(int) -> A,
    v: spec_fn(int) -> A,
)
    requires
        lossless::<A>(),
        filled2(
            before,
            out,
            top_k,
            rows,
            gathered::<A, D, T>(relu, qs, d, x, idx, k_in, rows, x_stride),
        ),
        0 <= k_in,
        0 <= slot < top_k,
        0 <= local < rows,
        q4_row_holds::<A, D>(qs, d, k_in, idx[slot] * rows + local, q, s),
        holds_values::<A, T>(x, slot * x_stride, k_in / 32 * 32, v),
    ensures
        ({
            let dot = block_dot(k_in / 32, q, s, v);
            out[slot * rows + local] == T::narrow_spec(
                if !relu {
                    dot
                } else if dot.above_spec(whole(0)) {
                    dot.times_spec(dot)
                } else {
                    whole(0)
                },
            )
        }),
{
    law_q4_dot_is_block_dot::<A, D, T>(
        qs,
        d,
        x,
        slot * x_stride,
        k_in,
        idx[slot] * rows + local,
        8,
        q,
        s,
        v,
    );
    times_zero(whole::<A>(0));
    assert(cell(out, rows, slot, local) == (gathered::<A, D, T>(
        relu,
        qs,
        d,
        x,
        idx,
        k_in,
        rows,
        x_stride,
    ))(slot, local));
}

/// In exact arithmetic accumulator `h` grows by the sum over slots of the slot's weight times
/// row `h` of the slot's expert against the slot's activations.
#[allow(clippy::too_many_arguments)]
pub proof fn law_weighted_down<A: Scalar, D: Storage<A>, T: Storage<A>>(
    qs: Seq<u32>,
    d: Seq<D>,
    x: Seq<T>,
    idx: Seq<u32>,
    wts: Seq<A>,
    before: Seq<T>,
    out: Seq<T>,
    inter: int,
    hid: int,
    top_k: int,
    h: int,
    q: spec_fn(int) -> spec_fn(int) -> int,
    s: spec_fn(int) -> spec_fn(int) -> A,
    v: spec_fn(int) -> spec_fn(int) -> A,
)
    requires
        lossless::<A>(),
        filled(
            before,
            out,
            hid,
            weighted_rows::<A, D, T>(before, qs, d, x, idx, wts, inter, hid, top_k),
        ),
        0 <= inter,
        0 <= h < hid,
        forall|slot: int|
            0 <= slot < top_k ==> q4_row_holds::<A, D>(
                qs,
                d,
                inter,
                idx[slot] * hid + h,
                #[trigger] q(slot),
                s(slot),
            ) && holds_values::<A, T>(x, slot * inter, inter / 32 * 32, v(slot)),
    ensures
        out[h] == T::narrow_spec(
            before[h].widen_spec().plus_spec(
                plain_sum(
                    top_k,
                    |slot: int|
                        wts[slot].times_spec(block_dot(inter / 32, q(slot), s(slot), v(slot))),
                ),
            ),
        ),
{
    let terms = weighted_terms::<A, D, T>(qs, d, x, idx, wts, inter, hid, h);
    let plain = |slot: int|
        wts[slot].times_spec(block_dot(inter / 32, q(slot), s(slot), v(slot)));
    assert forall|slot: int| 0 <= slot < top_k implies #[trigger] terms(slot) == plain(slot) by {
        let row = idx[slot] * hid + h;
        let singles = q4_single_terms::<A, D, T>(qs, d, x, slot * inter, inter, row);
        law_reduction_is_plain_sum(32, inter / 32 * 4, 8, singles);
        law_q4_dot_is_plain_sum::<A, D, T>(qs, d, x, slot * inter, inter, row, 8);
        let own = q(slot);
        law_q4_dot_is_block_dot::<A, D, T>(
            qs,
            d,
            x,
            slot * inter,
            inter,
            row,
            8,
            own,
            s(slot),
            v(slot),
        );
    }
    lemma_sum_same(whole(0), 0, top_k, terms, plain);
    assert(out[h] == (weighted_rows::<A, D, T>(
        before,
        qs,
        d,
        x,
        idx,
        wts,
        inter,
        hid,
        top_k,
    ))(h));
}

/// In exact arithmetic accumulator `h` grows by the sum over slots of the slot's weight times
/// element `h` of the slot's expert output.
#[allow(clippy::too_many_arguments)]
pub proof fn law_weighted_outputs<A: Scalar, T: Storage<A>>(
    downs: Seq<T>,
    wts: Seq<A>,
    before: Seq<T>,
    out: Seq<T>,
    hid: int,
    top_k: int,
    h: int,
    y: spec_fn(int) -> A,
)
    requires
        lossless::<A>(),
        filled(before, out, hid, summed_rows::<A, T>(before, downs, wts, hid, top_k)),
        0 <= h < hid,
        forall|slot: int|
            0 <= slot < top_k ==> downs[slot * hid + h].widen_spec() == #[trigger] y(slot),
    ensures
        out[h] == T::narrow_spec(
            before[h].widen_spec().plus_spec(
                plain_sum(top_k, |slot: int| wts[slot].times_spec(y(slot))),
            ),
        ),
{
    let terms = down_terms::<A, T>(downs, wts, hid, h);
    let plain = |slot: int| wts[slot].times_spec(y(slot));
    assert forall|slot: int| 0 <= slot < top_k implies #[trigger] terms(slot) == plain(slot) by {
        assert(Storage::<A>::widen_spec(downs[slot * hid + h]) == y(slot));
    }
    let first: A = before[h].widen_spec();
    lemma_sum_same(first, 0, top_k, terms, plain);
    lemma_sum_start(first, 0, top_k, plain);
    assert(out[h] == (summed_rows::<A, T>(before, downs, wts, hid, top_k))(h));
}

} // verus!
