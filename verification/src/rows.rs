//! Dispatches that own one output element per warp.
use crate::exact::{keeps, lossless, plus_assoc, plus_zero, times_dist, times_zero};
use crate::scalar::{rounded, whole, Scalar, Storage};
use crate::tensor::{cell, filled, filled2, lemma_flat, put};
use vstd::prelude::*;

verus! {

/// What becomes of a reduction before it is stored.
pub enum Finish<A> {
    /// Stored as it is.
    Plain,
    /// Squared where positive, zero elsewhere.
    Relu2,
    /// Scaled and added to what the element held.
    Axpy(A),
}

/// `max(0, a)^2`.
pub open spec fn relu2<A: Scalar>(a: A) -> A {
    let r = if a.above_spec(whole(0)) {
        a
    } else {
        whole(0)
    };
    r.times_spec(r)
}

/// The element stored for the reduction `total`, where `prev` stood before.
pub open spec fn stored<A: Scalar, T: Storage<A>>(finish: Finish<A>, prev: T, total: A) -> T {
    match finish {
        Finish::Plain => T::narrow_spec(total),
        Finish::Relu2 => T::narrow_spec(relu2(total)),
        Finish::Axpy(s) => T::narrow_spec(prev.widen_spec().plus_spec(s.times_spec(total))),
    }
}

/// Computes `max(0, a)^2`.
pub(crate) fn rectify<A: Scalar>(a: A) -> (v: A)
    ensures
        v == relu2(a),
{
    let r: A = if a.above(A::dyadic(0, 0)) {
        a
    } else {
        A::dyadic(0, 0)
    };
    r.times(r)
}

/// Finishes a reduction.
pub(crate) fn finish<A: Scalar, T: Storage<A>>(how: &Finish<A>, prev: T, total: A) -> (v: T)
    ensures
        v == stored(*how, prev, total),
{
    match *how {
        Finish::Plain => T::narrow(total),
        Finish::Relu2 => T::narrow(rectify(total)),
        Finish::Axpy(s) => T::narrow(prev.widen().plus(s.times(total))),
    }
}

/// The elements of an output vector, with the buffers that they are computed from.
pub(crate) trait RowWork<T: Copy> {
    spec fn ready(&self) -> bool;

    spec fn rows(&self) -> int;

    /// The elements, given what the vector held before.
    spec fn values(&self, before: Seq<T>) -> spec_fn(int) -> T;

    /// Computes element `r`, which held `prev`.
    fn row(&self, prev: T, r: usize, before: Ghost<Seq<T>>) -> (v: T)
        requires
            self.ready(),
            r < self.rows(),
            prev == before@[r as int],
        ensures
            v == (self.values(before@))(r as int),
    ;
}

/// Runs `ceil(rows / rows_per_tg)` threadgroups of `rows_per_tg` warps: warp `w` of
/// threadgroup `g` owns element `g * rows_per_tg + w`, if there is one.
#[verifier::loop_isolation(false)]
pub(crate) fn fill_rows<T: Copy, W: RowWork<T>>(
    work: &W,
    out: &mut Vec<T>,
    rows: usize,
    rows_per_tg: usize,
)
    requires
        work.ready(),
        rows == work.rows(),
        rows <= old(out)@.len(),
        rows_per_tg > 0,
        rows + rows_per_tg <= usize::MAX,
    ensures
        filled(old(out)@, final(out)@, rows as int, work.values(old(out)@)),
{
    let ghost before = out@;
    let ghost value = work.values(before);
    let groups: usize = (rows + rows_per_tg - 1) / rows_per_tg;
    proof {
        vstd::arithmetic::div_mod::lemma_fundamental_div_mod(
            rows + rows_per_tg - 1,
            rows_per_tg as int,
        );
        assert(rows <= groups * rows_per_tg <= rows + rows_per_tg - 1) by (nonlinear_arith)
            requires
                rows + rows_per_tg - 1 == rows_per_tg * groups + (rows + rows_per_tg - 1) % (
                rows_per_tg as int),
                0 <= (rows + rows_per_tg - 1) % (rows_per_tg as int) < rows_per_tg,
        ;
    }
    let mut g: usize = 0;
    while g < groups
        invariant
            g <= groups,
            filled(
                before,
                out@,
                if g * rows_per_tg < rows {
                    g * rows_per_tg
                } else {
                    rows as int
                },
                value,
            ),
        decreases groups - g,
    {
        proof {
            assert(g * rows_per_tg + rows_per_tg <= groups * rows_per_tg) by (nonlinear_arith)
                requires
                    g + 1 <= groups,
            ;
            assert((g + 1) * rows_per_tg == g * rows_per_tg + rows_per_tg && 0 <= g * rows_per_tg)
                by (nonlinear_arith);
        }
        let first: usize = g * rows_per_tg;
        let mut w: usize = 0;
        while w < rows_per_tg
            invariant
                w <= rows_per_tg,
                filled(
                    before,
                    out@,
                    if first + w < rows {
                        first + w
                    } else {
                        rows as int
                    },
                    value,
                ),
            decreases rows_per_tg - w,
        {
            let row: usize = first + w;
            if row < rows {
                let v: T = work.row(out[row], row, Ghost(before));
                out[row] = v;
            }
            w = w + 1;
        }
        g = g + 1;
    }
}

/// The elements of an output matrix, with the buffers that they are computed from.
pub(crate) trait GridWork<T> {
    spec fn ready(&self) -> bool;

    spec fn rows(&self) -> int;

    spec fn cols(&self) -> int;

    spec fn values(&self) -> spec_fn(int, int) -> T;

    /// Computes element `(r, c)`.
    fn at(&self, r: usize, c: usize) -> (v: T)
        requires
            self.ready(),
            r < self.rows(),
            c < self.cols(),
        ensures
            v == (self.values())(r as int, c as int),
    ;
}

/// Fills row `r` of the output, whose rows below `r` are filled already, in threadgroups of
/// `per_tg` warps.
#[verifier::loop_isolation(false)]
fn fill_row<T, W: GridWork<T>>(
    work: &W,
    out: &mut Vec<T>,
    rows: usize,
    cols: usize,
    per_tg: usize,
    r: usize,
    before: Ghost<Seq<T>>,
)
    requires
        work.ready(),
        rows == work.rows(),
        cols == work.cols(),
        rows * cols <= before@.len(),
        per_tg > 0,
        cols + per_tg <= usize::MAX,
        r < rows,
        filled2(before@, old(out)@, r as int, cols as int, work.values()),
    ensures
        filled2(before@, final(out)@, r + 1, cols as int, work.values()),
{
    let ghost value = work.values();
    let mut first: usize = 0;
    while first < cols
        invariant
            first < cols + per_tg,
            out@.len() == before@.len(),
            forall|r2: int, c2: int|
                0 <= r2 < rows && 0 <= c2 < cols && (r2 < r || (r2 == r && c2 < first))
                    ==> #[trigger] cell(out@, cols as int, r2, c2) == value(r2, c2),
            forall|i: int|
                r * cols + cols <= i < out@.len() ==> #[trigger] out@[i] == before@[i],
        decreases cols + per_tg - first,
    {
        let mut w: usize = 0;
        while w < per_tg
            invariant
                w <= per_tg,
                out@.len() == before@.len(),
                forall|r2: int, c2: int|
                    0 <= r2 < rows && 0 <= c2 < cols && (r2 < r || (r2 == r && c2 < first + w))
                        ==> #[trigger] cell(out@, cols as int, r2, c2) == value(r2, c2),
                forall|i: int|
                    r * cols + cols <= i < out@.len() ==> #[trigger] out@[i] == before@[i],
            decreases per_tg - w,
        {
            let c: usize = first + w;
            if c < cols {
                let v: T = work.at(r, c);
                proof {
                    lemma_flat(rows as int, cols as int, r as int, c as int);
                }
                put(out, Ghost(rows as int), cols, r, c, v);
            }
            w = w + 1;
        }
        first = first + per_tg;
    }
    proof {
        assert((r + 1) * cols == r * cols + cols) by (nonlinear_arith);
    }
}

/// Fills the output, one element per warp and `per_tg` warps per threadgroup.
pub(crate) fn fill_grid<T, W: GridWork<T>>(
    work: &W,
    out: &mut Vec<T>,
    rows: usize,
    cols: usize,
    per_tg: usize,
)
    requires
        work.ready(),
        rows == work.rows(),
        cols == work.cols(),
        rows * cols <= old(out)@.len(),
        per_tg > 0,
        cols + per_tg <= usize::MAX,
    ensures
        filled2(old(out)@, final(out)@, rows as int, cols as int, work.values()),
{
    let ghost before = out@;
    let mut r: usize = 0;
    while r < rows
        invariant
            work.ready(),
            rows == work.rows(),
            cols == work.cols(),
            rows * cols <= before.len(),
            per_tg > 0,
            cols + per_tg <= usize::MAX,
            r <= rows,
            filled2(before, out@, r as int, cols as int, work.values()),
        decreases rows - r,
    {
        fill_row(work, out, rows, cols, per_tg, r, Ghost(before));
        r = r + 1;
    }
}

/// Fills the output in tiles of `tile` rows; the rows of the last tile that the output
/// lacks are skipped.
pub(crate) fn fill_grid_tiled<T, W: GridWork<T>>(
    work: &W,
    out: &mut Vec<T>,
    rows: usize,
    cols: usize,
    tile: usize,
)
    requires
        work.ready(),
        rows == work.rows(),
        cols == work.cols(),
        rows * cols <= old(out)@.len(),
        tile > 0,
        rows + tile <= usize::MAX,
        cols < usize::MAX,
    ensures
        filled2(old(out)@, final(out)@, rows as int, cols as int, work.values()),
{
    let ghost before = out@;
    let mut first: usize = 0;
    let mut done: usize = 0;
    while first < rows
        invariant
            work.ready(),
            rows == work.rows(),
            cols == work.cols(),
            rows * cols <= before.len(),
            tile > 0,
            rows + tile <= usize::MAX,
            cols < usize::MAX,
            done == (if first < rows {
                first
            } else {
                rows
            }),
            first < rows + tile,
            filled2(before, out@, done as int, cols as int, work.values()),
        decreases rows + tile - first,
    {
        let mut t: usize = 0;
        while t < tile
            invariant
                work.ready(),
                rows == work.rows(),
                cols == work.cols(),
                rows * cols <= before.len(),
                first < rows,
                t <= tile,
                rows + tile <= usize::MAX,
                cols < usize::MAX,
                done == (if first + t < rows {
                    (first + t) as usize
                } else {
                    rows
                }),
                filled2(before, out@, done as int, cols as int, work.values()),
            decreases tile - t,
        {
            let r: usize = first + t;
            if r < rows {
                fill_row(work, out, rows, cols, 1, r, Ghost(before));
                done = done + 1;
            }
            t = t + 1;
        }
        first = first + tile;
    }
}

/// A reduction is stored as it is, squared where it is above zero, or scaled and added.
pub proof fn law_finishes<A: Scalar, T: Storage<A>>(prev: T, other: T, total: A)
    requires
        lossless::<A>(),
    ensures
        stored::<A, T>(Finish::Plain, prev, total) == T::narrow_spec(total),
        total.above_spec(whole(0)) ==> stored::<A, T>(Finish::Relu2, prev, total)
            == T::narrow_spec(total.times_spec(total)),
        !total.above_spec(whole(0)) ==> stored::<A, T>(Finish::Relu2, prev, total)
            == T::narrow_spec(whole(0)),
{
    times_zero(whole::<A>(0));
}

/// In exact arithmetic two weighted updates are one update by the sum, and an update by
/// nothing leaves what was there.
pub proof fn law_updates_add_up<A: Scalar, T: Storage<A>>(prev: T, s: A, a: A, b: A)
    requires
        lossless::<A>(),
        keeps::<A, T>(),
    ensures
        ({
            let once: T = stored(Finish::Axpy(s), prev, a);
            let twice: T = stored(Finish::Axpy(s), once, b);
            let both: T = stored(Finish::Axpy(s), prev, a.plus_spec(b));
            let none: T = stored(Finish::Axpy(s), prev, whole(0));
            &&& Storage::<A>::widen_spec(twice) == Storage::<A>::widen_spec(both)
            &&& Storage::<A>::widen_spec(none) == Storage::<A>::widen_spec(prev)
            &&& Storage::<A>::widen_spec(once) == Storage::<A>::widen_spec(prev).plus_spec(
                s.times_spec(a),
            )
        }),
{
    let p: A = prev.widen_spec();
    let (sa, sb) = (s.times_spec(a), s.times_spec(b));
    assert(rounded::<A, T>(p.plus_spec(sa)) == p.plus_spec(sa));
    let q = p.plus_spec(sa).plus_spec(sb);
    assert(rounded::<A, T>(q) == q);
    times_dist(s, a, b);
    plus_assoc(p, sa, sb);
    let both = p.plus_spec(s.times_spec(a.plus_spec(b)));
    assert(rounded::<A, T>(both) == both);
    times_zero(s);
    plus_zero(p);
    let none = p.plus_spec(s.times_spec(whole(0)));
    assert(rounded::<A, T>(none) == none);
}

} // verus!
