//! Tiled matrix multiplication: staging, multiply-accumulate steps, accumulator layout.
//!
//! A threadgroup owns a `bm x bn` tile of the output. Every `bk` columns it stages a
//! `bm x bk` tile of activations and a `bn x bk` tile of decoded weights, and runs one
//! multiply-accumulate step. The accumulators are split into sub-tiles of `sm x sn`, one
//! per simdgroup, kept one after the other.
use crate::scalar::{sum_from, whole, Scalar};
use crate::tensor::{cell, flat, lemma_flat, lemma_flat_apart, put};
use vstd::prelude::*;

verus! {

/// The extents of a tile.
#[derive(Clone, Copy)]
pub struct Shape {
    pub bm: usize,
    pub bn: usize,
    pub bk: usize,
    pub sm: usize,
    pub sn: usize,
}

impl Shape {
    pub open spec fn wf(&self) -> bool {
        &&& 0 < self.bm <= 64
        &&& 0 < self.bn <= 64
        &&& 0 < self.bk <= 64
        &&& 0 < self.sm
        &&& 0 < self.sn
        &&& self.bm % self.sm == 0
        &&& self.bn % self.sn == 0
    }

    /// How many sub-tiles lie side by side.
    pub open spec fn across(&self) -> int {
        self.bn as int / self.sn as int
    }

    /// How many sub-tiles there are.
    pub open spec fn subs(&self) -> int {
        (self.bm as int / self.sm as int) * self.across()
    }

    /// The tile row of row `r` of sub-tile `s`.
    pub open spec fn row(&self, s: int, r: int) -> int {
        (s / self.across()) * self.sm + r
    }

    /// The tile column of column `c` of sub-tile `s`.
    pub open spec fn col(&self, s: int, c: int) -> int {
        (s % self.across()) * self.sn + c
    }
}

/// `n` entries of row `r` of a matrix, from column `lo` on.
pub open spec fn strip<A>(m: spec_fn(int, int) -> A, r: int, lo: int, n: int) -> Seq<A> {
    Seq::new(n as nat, |k: int| m(r, lo + k))
}

/// An output element after `n` steps of depth `bk`: row `r` of `x` against row `c` of `w`.
pub open spec fn mma_cell<A: Scalar>(
    x: spec_fn(int, int) -> A,
    w: spec_fn(int, int) -> A,
    r: int,
    c: int,
    bk: int,
    n: int,
) -> A
    decreases n,
{
    if n <= 0 {
        whole(0)
    } else {
        A::mma_spec(
            mma_cell(x, w, r, c, bk, n - 1),
            strip(x, r, (n - 1) * bk, bk),
            strip(w, c, (n - 1) * bk, bk),
        )
    }
}

/// The operands of a tiled product, with the buffers that they are read from: an
/// activation matrix, and one weight matrix per expert.
pub(crate) trait TileSource<A: Scalar> {
    spec fn ready(&self) -> bool;

    /// The inner dimension.
    spec fn depth(&self) -> int;

    /// The activation rows that may be read.
    spec fn has_row(&self, row: int) -> bool;

    /// The experts whose weights may be read.
    spec fn has_expert(&self, expert: int) -> bool;

    /// The output columns.
    spec fn cols(&self) -> int;

    /// The weights that are decoded together.
    spec fn unit(&self) -> int;

    spec fn x_at(&self) -> spec_fn(int, int) -> A;

    spec fn w_at(&self, expert: int) -> spec_fn(int, int) -> A;

    /// Stages one activation.
    fn x(&self, row: usize, k: usize) -> (r: A)
        requires
            self.ready(),
            self.has_row(row as int),
            k < self.depth(),
        ensures
            r == (self.x_at())(row as int, k as int),
    ;

    /// Decodes the unit of weights at column `k0` of output column `col` to `ws[at..]`.
    fn w(&self, expert: usize, col: usize, k0: usize, ws: &mut Vec<A>, at: usize)
        requires
            self.ready(),
            self.has_expert(expert as int),
            col < self.cols(),
            k0 as int % self.unit() == 0,
            k0 + self.unit() <= self.depth(),
            at + self.unit() <= old(ws)@.len(),
        ensures
            final(ws)@.len() == old(ws)@.len(),
            forall|j: int|
                0 <= j < self.unit() ==> #[trigger] final(ws)@[at + j] == (self.w_at(
                    expert as int,
                ))(col as int, k0 + j),
            forall|i: int|
                0 <= i < old(ws)@.len() && !(at <= i < at + self.unit()) ==> #[trigger] final(ws)@[i]
                    == old(ws)@[i],
    ;
}

/// A buffer of `n` zeros.
pub(crate) fn zeros<A: Scalar>(n: usize) -> (r: Vec<A>)
    ensures
        r@ == Seq::new(n as nat, |i: int| whole::<A>(0)),
{
    let mut r: Vec<A> = Vec::new();
    let mut i: usize = 0;
    while i < n
        invariant
            i <= n,
            r@ == Seq::new(i as nat, |i: int| whole::<A>(0)),
        decreases n - i,
    {
        r.push(A::dyadic(0, 0));
        i = i + 1;
    }
    r
}

/// Stages the activations of tile rows `lo..hi`, and zeros in the other rows.
#[verifier::loop_isolation(false)]
fn stage_x<A: Scalar, W: TileSource<A>>(
    src: &W,
    shape: &Shape,
    row0: usize,
    lo: usize,
    hi: usize,
    kb: usize,
    xs: &mut Vec<A>,
)
    requires
        src.ready(),
        shape.wf(),
        lo <= hi <= shape.bm,
        forall|m: int| lo <= m < hi ==> #[trigger] src.has_row(row0 + m),
        row0 + hi <= usize::MAX,
        kb + shape.bk <= src.depth(),
        src.depth() <= usize::MAX,
        old(xs)@.len() == shape.bm * shape.bk,
    ensures
        final(xs)@.len() == old(xs)@.len(),
        forall|m: int, k: int|
            lo <= m < hi && 0 <= k < shape.bk ==> #[trigger] cell(
                final(xs)@,
                shape.bk as int,
                m,
                k,
            ) == (src.x_at())(row0 + m, kb + k),
{
    let (bm, bk): (usize, usize) = (shape.bm, shape.bk);
    let ghost n = xs@.len();
    let mut mr: usize = 0;
    while mr < bm
        invariant
            mr <= bm,
            xs@.len() == n,
            forall|m: int, k: int|
                lo <= m < hi && 0 <= k < bk && m < mr ==> #[trigger] cell(xs@, bk as int, m, k)
                    == (src.x_at())(row0 + m, kb + k),
        decreases bm - mr,
    {
        let mut kc: usize = 0;
        while kc < bk
            invariant
                kc <= bk,
                xs@.len() == n,
                forall|m: int, k: int|
                    lo <= m < hi && 0 <= k < bk && (m < mr || m == mr && k < kc)
                        ==> #[trigger] cell(xs@, bk as int, m, k) == (src.x_at())(row0 + m, kb + k),
            decreases bk - kc,
        {
            let v: A = if lo <= mr && mr < hi {
                assert(src.has_row(row0 + mr));
                src.x(row0 + mr, kb + kc)
            } else {
                A::dyadic(0, 0)
            };
            put(xs, Ghost(bm as int), bk, mr, kc, v);
            kc = kc + 1;
        }
        mr = mr + 1;
    }
}

/// Stages the decoded weights of tile columns `n_base..`, and zeros past the last column.
#[verifier::loop_isolation(false)]
fn stage_w<A: Scalar, W: TileSource<A>>(
    src: &W,
    shape: &Shape,
    expert: usize,
    n_base: usize,
    cols: usize,
    unit: usize,
    kb: usize,
    ws: &mut Vec<A>,
)
    requires
        src.ready(),
        shape.wf(),
        src.has_expert(expert as int),
        cols == src.cols(),
        unit == src.unit(),
        unit > 0,
        shape.bk as int % unit as int == 0,
        kb as int % shape.bk as int == 0,
        kb + shape.bk <= src.depth(),
        src.depth() <= usize::MAX,
        n_base + shape.bn <= usize::MAX,
        old(ws)@.len() == shape.bn * shape.bk,
    ensures
        final(ws)@.len() == old(ws)@.len(),
        forall|c: int, k: int|
            0 <= c < shape.bn && n_base + c < cols && 0 <= k < shape.bk ==> #[trigger] cell(
                final(ws)@,
                shape.bk as int,
                c,
                k,
            ) == (src.w_at(expert as int))(n_base + c, kb + k),
{
    let (bn, bk): (usize, usize) = (shape.bn, shape.bk);
    let ghost n = ws@.len();
    let ghost w = src.w_at(expert as int);
    let mut w_row: usize = 0;
    while w_row < bn
        invariant
            w_row <= bn,
            ws@.len() == n,
            forall|c: int, k: int|
                0 <= c < w_row && n_base + c < cols && 0 <= k < bk ==> #[trigger] cell(
                    ws@,
                    bk as int,
                    c,
                    k,
                ) == w(n_base + c, kb + k),
        decreases bn - w_row,
    {
        let mut k0: usize = 0;
        while k0 < bk
            invariant
                k0 <= bk,
                k0 as int % unit as int == 0,
                ws@.len() == n,
                forall|c: int, k: int|
                    0 <= c <= w_row && n_base + c < cols && 0 <= k < bk && (c < w_row || k < k0)
                        ==> #[trigger] cell(ws@, bk as int, c, k) == w(n_base + c, kb + k),
            decreases bk - k0,
        {
            proof {
                assert(ws@.len() == ws.len());
                lemma_next_unit(bk as int, unit as int, k0 as int, kb as int);
                lemma_flat(bn as int, bk as int, w_row as int, k0 as int);
            }
            let at: usize = w_row * bk + k0;
            let ghost was = ws@;
            if n_base + w_row < cols {
                src.w(expert, n_base + w_row, kb + k0, ws, at);
                proof {
                    assert forall|c: int, k: int|
                        0 <= c <= w_row && n_base + c < cols && 0 <= k < bk && (c < w_row || k < k0
                            + unit) implies #[trigger] cell(ws@, bk as int, c, k) == w(
                        n_base + c,
                        kb + k,
                    ) by {
                        lemma_flat(bn as int, bk as int, c, k);
                        let i = c * bk + k;
                        if c < w_row {
                            lemma_flat(w_row as int, bk as int, c, k);
                            assert(cell(was, bk as int, c, k) == w(n_base + c, kb + k));
                        } else if k < k0 {
                            assert(cell(was, bk as int, c, k) == w(n_base + c, kb + k));
                        } else {
                            assert(ws@[at + (k - k0)] == w(n_base + c, kb + k0 + (k - k0)));
                        }
                    }
                }
            } else {
                let mut j: usize = 0;
                while j < unit
                    invariant
                        j <= unit,
                        ws@.len() == n,
                        forall|i: int| 0 <= i < at ==> #[trigger] ws@[i] == was[i],
                    decreases unit - j,
                {
                    ws[at + j] = A::dyadic(0, 0);
                    j = j + 1;
                }
                proof {
                    assert forall|c: int, k: int|
                        0 <= c <= w_row && n_base + c < cols && 0 <= k < bk && (c < w_row || k < k0
                            + unit) implies #[trigger] cell(ws@, bk as int, c, k) == w(
                        n_base + c,
                        kb + k,
                    ) by {
                        lemma_flat(w_row as int, bk as int, c, k);
                        assert(cell(was, bk as int, c, k) == w(n_base + c, kb + k));
                    }
                }
            }
            k0 = k0 + unit;
        }
        w_row = w_row + 1;
    }
}

/// Units that divide the depth of a step tile it.
proof fn lemma_next_unit(bk: int, unit: int, k0: int, kb: int)
    requires
        0 < unit,
        bk % unit == 0,
        0 <= k0 < bk,
        k0 % unit == 0,
        kb % bk == 0,
        0 <= kb,
    ensures
        k0 + unit <= bk,
        (k0 + unit) % unit == 0,
        (kb + k0) % unit == 0,
{
    let a = bk / unit;
    let b = k0 / unit;
    let c = kb / bk;
    vstd::arithmetic::div_mod::lemma_fundamental_div_mod(bk, unit);
    vstd::arithmetic::div_mod::lemma_fundamental_div_mod(k0, unit);
    vstd::arithmetic::div_mod::lemma_fundamental_div_mod(kb, bk);
    assert(b < a) by (nonlinear_arith)
        requires
            unit * b < unit * a,
            unit > 0,
    ;
    assert(unit * b + unit <= unit * a) by (nonlinear_arith)
        requires
            b + 1 <= a,
            unit > 0,
    ;
    vstd::arithmetic::div_mod::lemma_mod_multiples_vanish(1, k0, unit);
    assert(kb + k0 == unit * (a * c + b)) by (nonlinear_arith)
        requires
            kb == bk * c,
            bk == unit * a,
            k0 == unit * b,
    ;
    vstd::arithmetic::div_mod::lemma_mod_multiples_basic(a * c + b, unit);
    assert(unit * (a * c + b) == (a * c + b) * unit) by (nonlinear_arith);
}

/// Row `r` of a staged tile.
pub open spec fn tile_row<A>(t: Seq<A>, bk: int, r: int) -> Seq<A> {
    Seq::new(bk as nat, |k: int| cell(t, bk, r, k))
}

/// Accumulator `(r, c)` of sub-tile `s`.
pub open spec fn slot<A>(acc: Seq<A>, shape: Shape, s: int, r: int, c: int) -> A {
    cell(acc, shape.sn as int, s * shape.sm + r, c)
}

/// Copies row `r` of a staged tile.
fn row_of<A: Scalar>(t: &Vec<A>, rows: Ghost<int>, bk: usize, r: usize) -> (v: Vec<A>)
    requires
        r < rows@,
        rows@ * bk <= t@.len(),
    ensures
        v@ == tile_row(t@, bk as int, r as int),
{
    let mut v: Vec<A> = Vec::new();
    let mut k: usize = 0;
    while k < bk
        invariant
            r < rows@,
            rows@ * bk <= t@.len(),
            k <= bk,
            v@ == Seq::new(k as nat, |k: int| cell(t@, bk as int, r as int, k)),
        decreases bk - k,
    {
        assert(t@.len() == t.len());
        let i: usize = flat(rows, bk, r, k);
        v.push(t[i]);
        k = k + 1;
    }
    v
}

/// Sub-tiles cover the tile.
proof fn lemma_subs(shape: Shape, s: int, r: int, c: int)
    requires
        shape.wf(),
        0 <= s < shape.subs(),
        0 <= r < shape.sm,
        0 <= c < shape.sn,
    ensures
        shape.across() > 0,
        0 <= shape.row(s, r) < shape.bm,
        0 <= shape.col(s, c) < shape.bn,
        0 <= s * shape.sm + r < shape.subs() * shape.sm,
        shape.subs() * shape.sm * shape.sn == shape.bm * shape.bn,
        shape.subs() * shape.sm <= 64 * 64,
{
    let (bm, bn) = (shape.bm as int, shape.bn as int);
    let (sm, sn) = (shape.sm as int, shape.sn as int);
    let across = shape.across();
    let down = bm / sm;
    vstd::arithmetic::div_mod::lemma_fundamental_div_mod(bm, sm);
    vstd::arithmetic::div_mod::lemma_fundamental_div_mod(bn, sn);
    assert(across > 0) by (nonlinear_arith)
        requires
            bn == sn * across,
            bn > 0,
            sn > 0,
    ;
    vstd::arithmetic::div_mod::lemma_fundamental_div_mod(s, across);
    let (q, p) = (s / across, s % across);
    assert(q < down) by (nonlinear_arith)
        requires
            s == across * q + p,
            0 <= p,
            s < down * across,
            across > 0,
    ;
    assert(q >= 0) by (nonlinear_arith)
        requires
            s == across * q + p,
            p < across,
            s >= 0,
            across > 0,
    ;
    lemma_flat(down, sm, q, r);
    lemma_flat(across, sn, p, c);
    lemma_flat(shape.subs(), sm, s, r);
    assert(down * sm == bm && across * sn == bn) by (nonlinear_arith)
        requires
            bm == sm * down,
            bn == sn * across,
    ;
    assert((down * across) * sm * sn == (down * sm) * (across * sn)) by (nonlinear_arith);
    let all = (down * across) * sm;
    assert(all <= 64 * 64) by (nonlinear_arith)
        requires
            0 <= all,
            sn > 0,
            all * sn == bm * bn,
            0 < bm <= 64,
            0 < bn <= 64,
    ;
}

/// Where a tile position lies among the sub-tiles.
pub proof fn lemma_place(shape: Shape, m: int, n: int)
    requires
        shape.wf(),
        0 <= m < shape.bm,
        0 <= n < shape.bn,
    ensures
        ({
            let s = (m / shape.sm as int) * shape.across() + n / shape.sn as int;
            let r = m % shape.sm as int;
            let c = n % shape.sn as int;
            &&& 0 <= s < shape.subs()
            &&& 0 <= r < shape.sm
            &&& 0 <= c < shape.sn
            &&& shape.row(s, r) == m
            &&& shape.col(s, c) == n
        }),
{
    let (bm, bn) = (shape.bm as int, shape.bn as int);
    let (sm, sn) = (shape.sm as int, shape.sn as int);
    let across = shape.across();
    let down = bm / sm;
    vstd::arithmetic::div_mod::lemma_fundamental_div_mod(bm, sm);
    vstd::arithmetic::div_mod::lemma_fundamental_div_mod(bn, sn);
    vstd::arithmetic::div_mod::lemma_fundamental_div_mod(m, sm);
    vstd::arithmetic::div_mod::lemma_fundamental_div_mod(n, sn);
    let (mq, nq) = (m / sm, n / sn);
    assert(0 <= mq < down) by (nonlinear_arith)
        requires
            bm == sm * down,
            m == sm * mq + m % sm,
            0 <= m % sm < sm,
            0 <= m < bm,
    ;
    assert(0 <= nq < across) by (nonlinear_arith)
        requires
            bn == sn * across,
            n == sn * nq + n % sn,
            0 <= n % sn < sn,
            0 <= n < bn,
    ;
    lemma_flat(down, across, mq, nq);
    let s = mq * across + nq;
    vstd::arithmetic::div_mod::lemma_fundamental_div_mod_converse(s, across, mq, nq);
    assert(mq * sm == sm * mq && nq * sn == sn * nq) by (nonlinear_arith);
}

/// One multiply-accumulate step of every sub-tile whose band starts below row `hi`.
#[verifier::loop_isolation(false)]
fn step<A: Scalar>(shape: &Shape, hi: usize, xs: &Vec<A>, ws: &Vec<A>, acc: &mut Vec<A>)
    requires
        shape.wf(),
        xs@.len() == shape.bm * shape.bk,
        ws@.len() == shape.bn * shape.bk,
        old(acc)@.len() == shape.bm * shape.bn,
    ensures
        final(acc)@.len() == old(acc)@.len(),
        forall|s: int, r: int, c: int|
            0 <= s < shape.subs() && 0 <= r < shape.sm && 0 <= c < shape.sn && shape.row(s, 0) < hi
                ==> #[trigger] slot(final(acc)@, *shape, s, r, c) == A::mma_spec(
                slot(old(acc)@, *shape, s, r, c),
                tile_row(xs@, shape.bk as int, shape.row(s, r)),
                tile_row(ws@, shape.bk as int, shape.col(s, c)),
            ),
{
    let ghost was = acc@;
    let ghost subs_rows = shape.subs() * shape.sm;
    let (sm, sn): (usize, usize) = (shape.sm, shape.sn);
    let across: usize = shape.bn / sn;
    proof {
        vstd::arithmetic::div_mod::lemma_fundamental_div_mod(shape.bn as int, sn as int);
        vstd::arithmetic::div_mod::lemma_fundamental_div_mod(shape.bm as int, sm as int);
        assert(across > 0 && across <= 64) by (nonlinear_arith)
            requires
                shape.bn == sn * across,
                0 < shape.bn <= 64,
                sn > 0,
        ;
        assert(0 <= shape.bm as int / sm as int <= 64) by (nonlinear_arith)
            requires
                0 < shape.bm <= 64,
                sm > 0,
        ;
        assert((shape.bm as int / sm as int) * across <= 64 * 64) by (nonlinear_arith)
            requires
                0 <= shape.bm as int / sm as int <= 64,
                0 <= across <= 64,
        ;
    }
    let subs: usize = (shape.bm / sm) * across;
    let mut s: usize = 0;
    while s < subs
        invariant
            s <= subs,
            acc@.len() == was.len(),
            forall|s2: int, r: int, c: int|
                0 <= s2 < s && 0 <= r < sm && 0 <= c < sn && shape.row(s2, 0) < hi
                    ==> #[trigger] slot(acc@, *shape, s2, r, c) == A::mma_spec(
                    slot(was, *shape, s2, r, c),
                    tile_row(xs@, shape.bk as int, shape.row(s2, r)),
                    tile_row(ws@, shape.bk as int, shape.col(s2, c)),
                ),
            forall|s2: int, r: int, c: int|
                s <= s2 < subs && 0 <= r < sm && 0 <= c < sn ==> #[trigger] slot(
                    acc@,
                    *shape,
                    s2,
                    r,
                    c,
                ) == slot(was, *shape, s2, r, c),
        decreases subs - s,
    {
        proof {
            lemma_subs(*shape, s as int, 0, 0);
        }
        let band: usize = (s / across) * sm;
        if band < hi {
            let mut r: usize = 0;
            while r < sm
                invariant
                    r <= sm,
                    acc@.len() == was.len(),
                    forall|s2: int, r2: int, c: int|
                        0 <= s2 <= s && 0 <= r2 < sm && 0 <= c < sn && (s2 < s || r2 < r)
                            && shape.row(s2, 0) < hi ==> #[trigger] slot(acc@, *shape, s2, r2, c)
                            == A::mma_spec(
                            slot(was, *shape, s2, r2, c),
                            tile_row(xs@, shape.bk as int, shape.row(s2, r2)),
                            tile_row(ws@, shape.bk as int, shape.col(s2, c)),
                        ),
                    forall|s2: int, r2: int, c: int|
                        s <= s2 < subs && 0 <= r2 < sm && 0 <= c < sn && (s < s2 || r <= r2)
                            ==> #[trigger] slot(acc@, *shape, s2, r2, c) == slot(
                            was,
                            *shape,
                            s2,
                            r2,
                            c,
                        ),
                decreases sm - r,
            {
                proof {
                    lemma_subs(*shape, s as int, r as int, 0);
                }
                let a: Vec<A> = row_of(xs, Ghost(shape.bm as int), shape.bk, band + r);
                let mut c: usize = 0;
                while c < sn
                    invariant
                        c <= sn,
                        acc@.len() == was.len(),
                        forall|s2: int, r2: int, c2: int|
                            0 <= s2 <= s && 0 <= r2 < sm && 0 <= c2 < sn && (s2 < s || r2 < r || r2
                                == r && c2 < c) && shape.row(s2, 0) < hi ==> #[trigger] slot(
                                acc@,
                                *shape,
                                s2,
                                r2,
                                c2,
                            ) == A::mma_spec(
                                slot(was, *shape, s2, r2, c2),
                                tile_row(xs@, shape.bk as int, shape.row(s2, r2)),
                                tile_row(ws@, shape.bk as int, shape.col(s2, c2)),
                            ),
                        forall|s2: int, r2: int, c2: int|
                            s <= s2 < subs && 0 <= r2 < sm && 0 <= c2 < sn && (s < s2 || r < r2 || r
                                == r2 && c <= c2) ==> #[trigger] slot(acc@, *shape, s2, r2, c2)
                                == slot(was, *shape, s2, r2, c2),
                    decreases sn - c,
                {
                    proof {
                        lemma_subs(*shape, s as int, r as int, c as int);
                    }
                    let b: Vec<A> = row_of(
                        ws,
                        Ghost(shape.bn as int),
                        shape.bk,
                        (s % across) * sn + c,
                    );
                    let ghost prev = acc@;
                    let at: usize = s * sm + r;
                    assert(slot(prev, *shape, s as int, r as int, c as int) == slot(
                        was,
                        *shape,
                        s as int,
                        r as int,
                        c as int,
                    ));
                    assert(acc@.len() == acc.len());
                    let i: usize = flat(Ghost(subs_rows), sn, at, c);
                    let v = A::mma(acc[i], &a, &b);
                    put(acc, Ghost(subs_rows), sn, at, c, v);
                    proof {
                        assert forall|s2: int, r2: int, c2: int|
                            0 <= s2 < subs && 0 <= r2 < sm && 0 <= c2 < sn implies #[trigger] slot(
                            acc@,
                            *shape,
                            s2,
                            r2,
                            c2,
                        ) == (if s2 == s && r2 == r && c2 == c {
                            v
                        } else {
                            slot(prev, *shape, s2, r2, c2)
                        }) by {
                            lemma_subs(*shape, s2, r2, c2);
                            if s2 * sm + r2 == s * sm + r {
                                lemma_flat_apart(sm as int, s2, r2, s as int, r as int);
                            }
                        }
                    }
                    c = c + 1;
                }
                r = r + 1;
            }
        }
        s = s + 1;
    }
}

/// The product of activation rows `row0 + lo..row0 + hi` with columns `n_base..` of an
/// expert's weights, in the accumulator layout of `shape`.
#[allow(clippy::too_many_arguments)]
#[verifier::loop_isolation(false)]
pub(crate) fn tile<A: Scalar, W: TileSource<A>>(
    src: &W,
    shape: &Shape,
    row0: usize,
    lo: usize,
    hi: usize,
    expert: usize,
    n_base: usize,
    cols: usize,
    unit: usize,
    depth: usize,
) -> (acc: Vec<A>)
    requires
        src.ready(),
        shape.wf(),
        lo <= hi <= shape.bm,
        forall|m: int| lo <= m < hi ==> #[trigger] src.has_row(row0 + m),
        row0 + hi <= usize::MAX,
        src.has_expert(expert as int),
        cols == src.cols(),
        unit == src.unit(),
        unit > 0,
        shape.bk as int % unit as int == 0,
        depth == src.depth(),
        depth as int % shape.bk as int == 0,
        n_base + shape.bn <= usize::MAX,
    ensures
        acc@.len() == shape.bm * shape.bn,
        forall|m: int, n: int|
            lo <= m < hi && 0 <= n < shape.bn && n_base + n < cols ==> #[trigger] product_at(
                acc@,
                *shape,
                m,
                n,
            ) == mma_cell(
                src.x_at(),
                src.w_at(expert as int),
                row0 + m,
                n_base + n,
                shape.bk as int,
                depth as int / shape.bk as int,
            ),
{
    let ghost x = src.x_at();
    let ghost w = src.w_at(expert as int);
    let bk: usize = shape.bk;
    proof {
        assert(0 < shape.bm * bk <= 64 * 64 && 0 < shape.bn * bk <= 64 * 64 && 0 < shape.bm
            * shape.bn <= 64 * 64) by (nonlinear_arith)
            requires
                0 < shape.bm <= 64,
                0 < shape.bn <= 64,
                0 < bk <= 64,
        ;
    }
    let mut xs: Vec<A> = zeros(shape.bm * bk);
    let mut ws: Vec<A> = zeros(shape.bn * bk);
    let mut acc: Vec<A> = zeros(shape.bm * shape.bn);
    let mut n: usize = 0;
    let steps: usize = depth / bk;
    proof {
        assert forall|s: int, r: int, c: int|
            0 <= s < shape.subs() && 0 <= r < shape.sm && 0 <= c < shape.sn implies #[trigger] slot(
            acc@,
            *shape,
            s,
            r,
            c,
        ) == whole::<A>(0) by {
            lemma_subs(*shape, s, r, c);
            lemma_flat(shape.subs() * shape.sm, shape.sn as int, s * shape.sm + r, c);
        }
        vstd::arithmetic::div_mod::lemma_fundamental_div_mod(depth as int, bk as int);
    }
    while n < steps
        invariant
            n <= steps,
            xs@.len() == shape.bm * bk,
            ws@.len() == shape.bn * bk,
            acc@.len() == shape.bm * shape.bn,
            forall|s: int, r: int, c: int|
                0 <= s < shape.subs() && 0 <= r < shape.sm && 0 <= c < shape.sn && lo <= shape.row(
                    s,
                    r,
                ) < hi && n_base + shape.col(s, c) < cols ==> #[trigger] slot(
                    acc@,
                    *shape,
                    s,
                    r,
                    c,
                ) == mma_cell(
                    x,
                    w,
                    row0 + shape.row(s, r),
                    n_base + shape.col(s, c),
                    bk as int,
                    n as int,
                ),
        decreases steps - n,
    {
        proof {
            assert(n * bk + bk <= steps * bk) by (nonlinear_arith)
                requires
                    n + 1 <= steps,
            ;
            assert(steps * bk == bk * steps && 0 <= n * bk) by (nonlinear_arith);
            vstd::arithmetic::div_mod::lemma_mod_multiples_basic(n as int, bk as int);
        }
        let kb: usize = n * bk;
        stage_x(src, shape, row0, lo, hi, kb, &mut xs);
        stage_w(src, shape, expert, n_base, cols, unit, kb, &mut ws);
        let ghost was = acc@;
        step(shape, hi, &xs, &ws, &mut acc);
        proof {
            assert forall|s: int, r: int, c: int|
                0 <= s < shape.subs() && 0 <= r < shape.sm && 0 <= c < shape.sn && lo <= shape.row(
                    s,
                    r,
                ) < hi && n_base + shape.col(s, c) < cols implies #[trigger] slot(
                acc@,
                *shape,
                s,
                r,
                c,
            ) == mma_cell(
                x,
                w,
                row0 + shape.row(s, r),
                n_base + shape.col(s, c),
                bk as int,
                n + 1,
            ) by {
                lemma_subs(*shape, s, r, c);
                let (m, q) = (shape.row(s, r), shape.col(s, c));
                assert(slot(was, *shape, s, r, c) == mma_cell(
                    x,
                    w,
                    row0 + m,
                    n_base + q,
                    bk as int,
                    n as int,
                ));
                assert(tile_row(xs@, bk as int, m) =~= strip(x, row0 + m, n * bk, bk as int));
                assert(tile_row(ws@, bk as int, q) =~= strip(w, n_base + q, n * bk, bk as int));
            }
        }
        n = n + 1;
    }
    proof {
        assert forall|m: int, n: int|
            lo <= m < hi && 0 <= n < shape.bn && n_base + n < cols implies #[trigger] product_at(
            acc@,
            *shape,
            m,
            n,
        ) == mma_cell(x, w, row0 + m, n_base + n, bk as int, steps as int) by {
            lemma_place(*shape, m, n);
        }
    }
    acc
}

/// The products of row `c` of `w` with row `r` of `x`.
pub open spec fn fma_terms<A: Scalar>(
    x: spec_fn(int, int) -> A,
    w: spec_fn(int, int) -> A,
    r: int,
    c: int,
) -> spec_fn(int) -> A {
    |k: int| w(c, k).times_spec(x(r, k))
}

/// Adds the products of one staged step to every accumulator, column by column.
#[verifier::loop_isolation(false)]
fn fma_step<A: Scalar>(shape: &Shape, xs: &Vec<A>, ws: &Vec<A>, acc: &mut Vec<A>)
    requires
        shape.wf(),
        xs@.len() == shape.bm * shape.bk,
        ws@.len() == shape.bn * shape.bk,
        old(acc)@.len() == shape.bm * shape.bn,
    ensures
        final(acc)@.len() == old(acc)@.len(),
        forall|m: int, n: int|
            0 <= m < shape.bm && 0 <= n < shape.bn ==> #[trigger] cell(
                final(acc)@,
                shape.bn as int,
                m,
                n,
            ) == sum_from(
                cell(old(acc)@, shape.bn as int, m, n),
                0,
                shape.bk as int,
                staged_terms(xs@, ws@, shape.bk as int, m, n),
            ),
{
    let ghost was = acc@;
    let (bm, bn, bk): (usize, usize, usize) = (shape.bm, shape.bn, shape.bk);
    let mut m: usize = 0;
    while m < bm
        invariant
            m <= bm,
            acc@.len() == was.len(),
            forall|m2: int, n2: int|
                0 <= m2 < bm && 0 <= n2 < bn ==> #[trigger] cell(acc@, bn as int, m2, n2) == (
                if m2 < m {
                    sum_from(
                        cell(was, bn as int, m2, n2),
                        0,
                        bk as int,
                        staged_terms(xs@, ws@, bk as int, m2, n2),
                    )
                } else {
                    cell(was, bn as int, m2, n2)
                }),
        decreases bm - m,
    {
        let mut n: usize = 0;
        while n < bn
            invariant
                n <= bn,
                acc@.len() == was.len(),
                forall|m2: int, n2: int|
                    0 <= m2 < bm && 0 <= n2 < bn ==> #[trigger] cell(acc@, bn as int, m2, n2) == (
                    if m2 < m || m2 == m && n2 < n {
                        sum_from(
                            cell(was, bn as int, m2, n2),
                            0,
                            bk as int,
                            staged_terms(xs@, ws@, bk as int, m2, n2),
                        )
                    } else {
                        cell(was, bn as int, m2, n2)
                    }),
            decreases bn - n,
        {
            let ghost terms = staged_terms(xs@, ws@, bk as int, m as int, n as int);
            assert(cell(acc@, bn as int, m as int, n as int) == cell(
                was,
                bn as int,
                m as int,
                n as int,
            ));
            assert(acc@.len() == acc.len() && xs@.len() == xs.len() && ws@.len() == ws.len());
            let at: usize = flat(Ghost(bm as int), bn, m, n);
            let mut v: A = acc[at];
            let mut k: usize = 0;
            while k < bk
                invariant
                    k <= bk,
                    v == sum_from(cell(was, bn as int, m as int, n as int), 0, k as int, terms),
                decreases bk - k,
            {
                let i: usize = flat(Ghost(bn as int), bk, n, k);
                let j: usize = flat(Ghost(bm as int), bk, m, k);
                v = v.plus(ws[i].times(xs[j]));
                k = k + 1;
            }
            put(acc, Ghost(bm as int), bn, m, n, v);
            n = n + 1;
        }
        m = m + 1;
    }
}

/// The products of one staged step.
pub open spec fn staged_terms<A: Scalar>(
    xs: Seq<A>,
    ws: Seq<A>,
    bk: int,
    m: int,
    n: int,
) -> spec_fn(int) -> A {
    |k: int| cell(ws, bk, n, k).times_spec(cell(xs, bk, m, k))
}

/// A sum goes on where a staged step takes it up.
proof fn lemma_resume<A: Scalar>(
    init: A,
    done: int,
    n: int,
    terms: spec_fn(int) -> A,
    staged: spec_fn(int) -> A,
)
    requires
        0 <= done,
        0 <= n,
        forall|k: int| 0 <= k < n ==> #[trigger] staged(k) == terms(done + k),
    ensures
        sum_from(sum_from(init, 0, done, terms), 0, n, staged) == sum_from(
            init,
            0,
            done + n,
            terms,
        ),
    decreases n,
{
    if n > 0 {
        lemma_resume(init, done, n - 1, terms, staged);
        assert(staged(n - 1) == terms(done + (n - 1)));
    }
}

/// The product of activation rows `row0..row0 + hi` with columns `n_base..` of an expert's
/// weights, every accumulator adding its products in the order of the columns. One sub-tile
/// is the whole tile.
#[allow(clippy::too_many_arguments)]
#[verifier::loop_isolation(false)]
pub(crate) fn fma_tile<A: Scalar, W: TileSource<A>>(
    src: &W,
    shape: &Shape,
    row0: usize,
    hi: usize,
    expert: usize,
    n_base: usize,
    cols: usize,
    unit: usize,
    depth: usize,
) -> (acc: Vec<A>)
    requires
        src.ready(),
        shape.wf(),
        shape.sm == shape.bm,
        shape.sn == shape.bn,
        hi <= shape.bm,
        forall|m: int| 0 <= m < hi ==> #[trigger] src.has_row(row0 + m),
        row0 + hi <= usize::MAX,
        src.has_expert(expert as int),
        cols == src.cols(),
        unit == src.unit(),
        unit > 0,
        shape.bk as int % unit as int == 0,
        depth == src.depth(),
        depth as int % shape.bk as int == 0,
        n_base + shape.bn <= usize::MAX,
    ensures
        acc@.len() == shape.bm * shape.bn,
        forall|m: int, n: int|
            0 <= m < hi && 0 <= n < shape.bn && n_base + n < cols ==> #[trigger] product_at(
                acc@,
                *shape,
                m,
                n,
            ) == sum_from(
                whole(0),
                0,
                depth as int,
                fma_terms(src.x_at(), src.w_at(expert as int), row0 + m, n_base + n),
            ),
{
    let ghost x = src.x_at();
    let ghost w = src.w_at(expert as int);
    let (bm, bn, bk): (usize, usize, usize) = (shape.bm, shape.bn, shape.bk);
    proof {
        assert(0 < bm * bk <= 64 * 64 && 0 < bn * bk <= 64 * 64 && 0 < bm * bn <= 64 * 64)
            by (nonlinear_arith)
            requires
                0 < bm <= 64,
                0 < bn <= 64,
                0 < bk <= 64,
        ;
        vstd::arithmetic::div_mod::lemma_fundamental_div_mod(depth as int, bk as int);
    }
    let mut xs: Vec<A> = zeros(bm * bk);
    let mut ws: Vec<A> = zeros(bn * bk);
    let mut acc: Vec<A> = zeros(bm * bn);
    proof {
        assert forall|m: int, n: int| 0 <= m < bm && 0 <= n < bn implies #[trigger] cell(
            acc@,
            bn as int,
            m,
            n,
        ) == whole::<A>(0) by {
            lemma_flat(bm as int, bn as int, m, n);
        }
    }
    let steps: usize = depth / bk;
    let mut t: usize = 0;
    while t < steps
        invariant
            t <= steps,
            xs@.len() == bm * bk,
            ws@.len() == bn * bk,
            acc@.len() == bm * bn,
            forall|m: int, n: int|
                0 <= m < hi && 0 <= n < bn && n_base + n < cols ==> #[trigger] cell(
                    acc@,
                    bn as int,
                    m,
                    n,
                ) == sum_from(whole(0), 0, t * bk, fma_terms(x, w, row0 + m, n_base + n)),
        decreases steps - t,
    {
        proof {
            assert(t * bk + bk <= steps * bk) by (nonlinear_arith)
                requires
                    t + 1 <= steps,
            ;
            assert(steps * bk == bk * steps && 0 <= t * bk && (t + 1) * bk == t * bk + bk)
                by (nonlinear_arith);
            vstd::arithmetic::div_mod::lemma_mod_multiples_basic(t as int, bk as int);
        }
        let kb: usize = t * bk;
        stage_x(src, shape, row0, 0, hi, kb, &mut xs);
        stage_w(src, shape, expert, n_base, cols, unit, kb, &mut ws);
        let ghost was = acc@;
        fma_step(shape, &xs, &ws, &mut acc);
        proof {
            assert forall|m: int, n: int|
                0 <= m < hi && 0 <= n < bn && n_base + n < cols implies #[trigger] cell(
                acc@,
                bn as int,
                m,
                n,
            ) == sum_from(whole(0), 0, (t + 1) * bk, fma_terms(x, w, row0 + m, n_base + n)) by {
                assert(cell(was, bn as int, m, n) == sum_from(
                    whole::<A>(0),
                    0,
                    t * bk,
                    fma_terms(x, w, row0 + m, n_base + n),
                ));
                let staged = staged_terms(xs@, ws@, bk as int, m, n);
                let terms = fma_terms(x, w, row0 + m, n_base + n);
                assert forall|k: int| 0 <= k < bk implies #[trigger] staged(k) == terms(
                    t * bk + k,
                ) by {
                    assert(cell(xs@, bk as int, m, k) == x(row0 + m, kb + k));
                    assert(cell(ws@, bk as int, n, k) == w(n_base + n, kb + k));
                }
                lemma_resume(whole::<A>(0), t * bk, bk as int, terms, staged);
            }
        }
        t = t + 1;
    }
    proof {
        assert(steps * bk == bk * steps) by (nonlinear_arith);
        assert forall|m: int, n: int|
            0 <= m < hi && 0 <= n < shape.bn && n_base + n < cols implies #[trigger] product_at(
            acc@,
            *shape,
            m,
            n,
        ) == sum_from(whole(0), 0, depth as int, fma_terms(x, w, row0 + m, n_base + n)) by {
            vstd::arithmetic::div_mod::lemma_basic_div(m, bm as int);
            vstd::arithmetic::div_mod::lemma_basic_div(n, bn as int);
            vstd::arithmetic::div_mod::lemma_small_mod(m as nat, bm as nat);
            vstd::arithmetic::div_mod::lemma_small_mod(n as nat, bn as nat);
            let q = m / shape.sm as int;
            let across = shape.across();
            let s = q * across + n / shape.sn as int;
            let sm = shape.sm as int;
            assert(q * across == 0) by (nonlinear_arith)
                requires
                    q == 0,
            ;
            assert(s * sm == 0) by (nonlinear_arith)
                requires
                    s == 0,
            ;
            assert(product_at(acc@, *shape, m, n) == cell(acc@, bn as int, m, n));
        }
    }
    acc
}

/// The accumulator of tile position `(m, n)`.
pub open spec fn product_at<A>(acc: Seq<A>, shape: Shape, m: int, n: int) -> A {
    slot(
        acc,
        shape,
        (m / shape.sm as int) * shape.across() + n / shape.sn as int,
        m % shape.sm as int,
        n % shape.sn as int,
    )
}

/// Reads the accumulator of tile position `(m, n)`.
pub(crate) fn product<A: Scalar>(acc: &Vec<A>, shape: &Shape, m: usize, n: usize) -> (r: A)
    requires
        shape.wf(),
        acc@.len() == shape.bm * shape.bn,
        m < shape.bm,
        n < shape.bn,
    ensures
        r == product_at(acc@, *shape, m as int, n as int),
{
    let across: usize = shape.bn / shape.sn;
    proof {
        assert(acc@.len() == acc.len());
        lemma_place(*shape, m as int, n as int);
        let s = (m as int / shape.sm as int) * shape.across() + n as int / shape.sn as int;
        lemma_subs(*shape, s, m as int % shape.sm as int, n as int % shape.sn as int);
        assert(0 <= (m as int / shape.sm as int) * across <= s) by {
            assert(0 <= m as int / shape.sm as int) by (nonlinear_arith)
                requires
                    shape.sm > 0,
            ;
            assert(0 <= n as int / shape.sn as int) by (nonlinear_arith)
                requires
                    shape.sn > 0,
            ;
            assert(0 <= (m as int / shape.sm as int) * across) by (nonlinear_arith)
                requires
                    0 <= m as int / shape.sm as int,
            ;
        }
        assert(s <= s * shape.sm) by (nonlinear_arith)
            requires
                0 <= s,
                shape.sm >= 1,
        ;
    }
    let s: usize = (m / shape.sm) * across + n / shape.sn;
    let at: usize = s * shape.sm + m % shape.sm;
    let i: usize = flat(Ghost(shape.subs() * shape.sm), shape.sn, at, n % shape.sn);
    acc[i]
}

} // verus!
