//! Layer normalisation, one threadgroup of `lsize` lanes per row.
use crate::exact::{
    divides, keeps, law_two_stage_reduction_is_plain_sum, lemma_negatives, lemma_square,
    lemma_sum_factor, lemma_sum_pairs, lemma_sum_repeated, lemma_sum_same, lemma_sum_shift,
    lemma_sum_split, lemma_sum_start, lossless, plain_sum, plus_zero, shares, subtracts,
    times_assoc, times_comm, times_dist, times_one, times_zero, two_stages,
};
use crate::gemm::dequant_gemv::after;
use crate::gemm::packed_rows::holds_values;
use crate::rows::{fill_grid, GridWork};
use crate::scalar::{
    lane_sum, rounded, rounds, run_lane, sum_from, whole, LaneWork, Scalar, Storage,
};
use crate::tensor::{cell, filled2, lemma_flat, read};
use std::marker::PhantomData;
use vstd::prelude::*;

verus! {

/// The elements of row `row`, or their squares.
pub open spec fn row_powers<A: Scalar, T: Storage<A>>(
    squared: bool,
    x: Seq<T>,
    n: int,
    row: int,
) -> spec_fn(int) -> A {
    |i: int|
        {
            let v = cell(x, n, row, i).widen_spec();
            if squared {
                v.times_spec(v)
            } else {
                v
            }
        }
}

/// A row's sum: every lane takes four neighbours at a time as long as all lanes can, then
/// single elements.
pub open spec fn quad_sum<A: Scalar>(n: int, lsize: int, terms: spec_fn(int) -> A) -> A {
    A::lanes_sum_spec(Seq::new(lsize as nat, |lane: int| quad_lane(n, lsize, lane, terms)))
}

/// A lane's share of a row's sum.
pub open spec fn quad_lane<A: Scalar>(
    n: int,
    lsize: int,
    lane: int,
    terms: spec_fn(int) -> A,
) -> A {
    let quads = n / (lsize * 4) * lsize;
    let tail = n - quads * 4;
    lane_sum(
        lane_sum(whole(0), rounds(quads, lsize), lsize, lane, quads, 4, terms),
        rounds(tail, lsize),
        lsize,
        lane,
        tail,
        1,
        after(terms, quads * 4),
    )
}

/// A row's mean.
pub open spec fn row_mean<A: Scalar, T: Storage<A>>(x: Seq<T>, n: int, lsize: int, row: int) -> A {
    quad_sum(n, lsize, row_powers::<A, T>(false, x, n, row)).over_spec(whole(n))
}

/// A row's variance, `E[x^2] - E[x]^2`, zero where rounding drove that below zero.
pub open spec fn row_variance<A: Scalar, T: Storage<A>>(
    x: Seq<T>,
    n: int,
    lsize: int,
    row: int,
) -> A {
    let mean = row_mean::<A, T>(x, n, lsize, row);
    let raw = quad_sum(n, lsize, row_powers::<A, T>(true, x, n, row)).over_spec(
        whole(n),
    ).minus_spec(mean.times_spec(mean));
    if raw.above_spec(whole(0)) {
        raw
    } else {
        whole(0)
    }
}

/// The normalised elements: `(x - mean) * rsqrt(variance + eps) * w + b`.
pub open spec fn normalised<A: Scalar, T: Storage<A>>(
    x: Seq<T>,
    w: Seq<T>,
    b: Seq<T>,
    eps: A,
    n: int,
    lsize: int,
) -> spec_fn(int, int) -> T {
    |row: int, i: int|
        T::narrow_spec(
            cell(x, n, row, i).widen_spec().minus_spec(
                row_mean::<A, T>(x, n, lsize, row),
            ).times_spec(
                row_variance::<A, T>(x, n, lsize, row).plus_spec(eps).rsqrt_spec(),
            ).times_spec(w[i].widen_spec()).plus_spec(b[i].widen_spec()),
        )
}

/// Part of a row, from element `first` on, in units of `unit`.
struct Part<'a, A, T> {
    squared: bool,
    x: &'a [T],
    n: usize,
    row: usize,
    rows: Ghost<int>,
    first: usize,
    count: usize,
    unit: usize,
    registers: PhantomData<A>,
}

impl<'a, A: Scalar, T: Storage<A>> LaneWork<A> for Part<'a, A, T> {
    closed spec fn ready(&self) -> bool {
        &&& self.row < self.rows@
        &&& self.rows@ * self.n <= self.x@.len()
        &&& self.unit == 1 || self.unit == 4
        &&& self.first + self.count * self.unit <= self.n
    }

    closed spec fn units(&self) -> int {
        self.count as int
    }

    closed spec fn unit(&self) -> int {
        self.unit as int
    }

    closed spec fn terms(&self) -> spec_fn(int) -> A {
        after(
            row_powers::<A, T>(self.squared, self.x@, self.n as int, self.row as int),
            self.first as int,
        )
    }

    fn accumulate(&self, acc: A, u: usize) -> (r: A) {
        proof {
            lemma_flat(self.count as int, self.unit as int, u as int, 0);
        }
        let at: usize = self.first + u * self.unit;
        let mut acc = acc;
        let ghost start = acc;
        let mut i: usize = 0;
        while i < self.unit
            invariant
                self.ready(),
                u < self.count,
                at == self.first + u * self.unit,
                at + self.unit <= self.n,
                i <= self.unit,
                acc == sum_from(start, u * self.unit, i as int, self.terms()),
            decreases self.unit - i,
        {
            let v: A = read(self.x, self.rows, self.n, self.row, at + i).widen();
            let t: A = if self.squared {
                v.times(v)
            } else {
                v
            };
            acc = acc.plus(t);
            i = i + 1;
        }
        acc
    }
}

/// Sums a row.
#[verifier::loop_isolation(false)]
fn sum_row<A: Scalar, T: Storage<A>>(
    squared: bool,
    x: &[T],
    n: usize,
    lsize: usize,
    row: usize,
    rows: Ghost<int>,
) -> (s: A)
    requires
        row < rows@,
        rows@ * n <= x@.len(),
        lsize > 0,
        lsize * 4 <= usize::MAX,
        n + lsize <= usize::MAX,
    ensures
        s == quad_sum(
            n as int,
            lsize as int,
            row_powers::<A, T>(squared, x@, n as int, row as int),
        ),
{
    let ghost terms = row_powers::<A, T>(squared, x@, n as int, row as int);
    proof {
        let q = n as int / (lsize * 4);
        vstd::arithmetic::div_mod::lemma_fundamental_div_mod(n as int, lsize * 4);
        vstd::arithmetic::div_mod::lemma_div_pos_is_pos(n as int, lsize * 4);
        assert(0 <= q * lsize && q * lsize * 4 == (lsize * 4) * q) by (nonlinear_arith)
            requires
                0 <= q,
        ;
    }
    let quads: usize = n / (lsize * 4) * lsize;
    let first = Part::<A, T> {
        squared,
        x,
        n,
        row,
        rows,
        first: 0,
        count: quads,
        unit: 4,
        registers: PhantomData,
    };
    let rest = Part::<A, T> {
        squared,
        x,
        n,
        row,
        rows,
        first: quads * 4,
        count: n - quads * 4,
        unit: 1,
        registers: PhantomData,
    };
    proof {
        assert(after(terms, 0) =~= terms);
    }
    let mut parts: Vec<A> = Vec::new();
    let mut lane: usize = 0;
    while lane < lsize
        invariant
            lane <= lsize,
            parts@.len() == lane,
            forall|l: int|
                0 <= l < lane ==> #[trigger] parts@[l] == quad_lane(
                    n as int,
                    lsize as int,
                    l,
                    terms,
                ),
        decreases lsize - lane,
    {
        let mid: A = run_lane(&first, A::dyadic(0, 0), quads, lsize, lane);
        let p: A = run_lane(&rest, mid, n - quads * 4, lsize, lane);
        parts.push(p);
        lane = lane + 1;
    }
    assert(parts@ =~= Seq::new(
        lsize as nat,
        |lane: int| quad_lane(n as int, lsize as int, lane, terms),
    ));
    A::lanes_sum(&parts)
}

struct NormRow<'a, A, T> {
    x: &'a [T],
    w: &'a [T],
    b: &'a [T],
    means: &'a Vec<A>,
    scales: &'a Vec<A>,
    n: usize,
    rows: usize,
    lsize: Ghost<int>,
    eps: Ghost<A>,
}

impl<'a, A: Scalar, T: Storage<A>> GridWork<T> for NormRow<'a, A, T> {
    closed spec fn ready(&self) -> bool {
        &&& self.rows * self.n <= self.x@.len()
        &&& self.n <= self.w@.len()
        &&& self.n <= self.b@.len()
        &&& self.means@.len() == self.rows
        &&& self.scales@.len() == self.rows
        &&& forall|r: int|
            0 <= r < self.rows ==> #[trigger] self.means@[r] == row_mean::<A, T>(
                self.x@,
                self.n as int,
                self.lsize@,
                r,
            )
        &&& forall|r: int|
            0 <= r < self.rows ==> #[trigger] self.scales@[r] == row_variance::<A, T>(
                self.x@,
                self.n as int,
                self.lsize@,
                r,
            ).plus_spec(self.eps@).rsqrt_spec()
    }

    closed spec fn rows(&self) -> int {
        self.rows as int
    }

    closed spec fn cols(&self) -> int {
        self.n as int
    }

    closed spec fn values(&self) -> spec_fn(int, int) -> T {
        normalised::<A, T>(self.x@, self.w@, self.b@, self.eps@, self.n as int, self.lsize@)
    }

    fn at(&self, r: usize, c: usize) -> (v: T) {
        let x: A = read(self.x, Ghost(self.rows as int), self.n, r, c).widen();
        T::narrow(
            x.minus(self.means[r]).times(self.scales[r]).times(self.w[c].widen()).plus(
                self.b[c].widen(),
            ),
        )
    }
}

/// Normalises the first `rows` rows of `n` elements.
#[verifier::loop_isolation(false)]
pub fn iron_layer_norm<A: Scalar, T: Storage<A>>(
    x: &[T],
    w: &[T],
    b: &[T],
    out: &mut Vec<T>,
    eps_buf: &[A],
    n: u32,
    rows: u32,
    lsize: u32,
)
    requires
        rows * n <= x@.len(),
        n <= w@.len(),
        n <= b@.len(),
        rows * n <= old(out)@.len(),
        eps_buf@.len() > 0,
        lsize > 0,
        lsize * 4 <= u32::MAX,
        n + lsize <= u32::MAX,
    ensures
        filled2(
            old(out)@,
            final(out)@,
            rows as int,
            n as int,
            normalised::<A, T>(x@, w@, b@, eps_buf@[0], n as int, lsize as int),
        ),
{
    let eps: A = eps_buf[0];
    let mut means: Vec<A> = Vec::new();
    let mut scales: Vec<A> = Vec::new();
    let mut r: usize = 0;
    while r < rows as usize
        invariant
            r <= rows,
            means@.len() == r,
            scales@.len() == r,
            forall|q: int|
                0 <= q < r ==> #[trigger] means@[q] == row_mean::<A, T>(
                    x@,
                    n as int,
                    lsize as int,
                    q,
                ),
            forall|q: int|
                0 <= q < r ==> #[trigger] scales@[q] == row_variance::<A, T>(
                    x@,
                    n as int,
                    lsize as int,
                    q,
                ).plus_spec(eps).rsqrt_spec(),
        decreases rows - r,
    {
        let count: A = A::dyadic(n as i64, 0);
        let st: A = sum_row(false, x, n as usize, lsize as usize, r, Ghost(rows as int));
        let sqt: A = sum_row(true, x, n as usize, lsize as usize, r, Ghost(rows as int));
        let mean: A = st.over(count);
        let raw: A = sqt.over(count).minus(mean.times(mean));
        let var: A = if raw.above(A::dyadic(0, 0)) {
            raw
        } else {
            A::dyadic(0, 0)
        };
        means.push(mean);
        scales.push(var.plus(eps).rsqrt());
        r = r + 1;
    }
    let work = NormRow {
        x,
        w,
        b,
        means: &means,
        scales: &scales,
        n: n as usize,
        rows: rows as usize,
        lsize: Ghost(lsize as int),
        eps: Ghost(eps),
    };
    fill_grid(&work, out, rows as usize, n as usize, 1);
}

/// In exact arithmetic a row's sum is the plain sum, whatever the number of lanes.
pub proof fn law_quad_sum_is_plain_sum<A: Scalar>(n: int, lsize: int, terms: spec_fn(int) -> A)
    requires
        lossless::<A>(),
        0 <= n,
        0 < lsize,
    ensures
        quad_sum(n, lsize, terms) == plain_sum(n, terms),
{
    let q = n / (lsize * 4);
    let quads = q * lsize;
    vstd::arithmetic::div_mod::lemma_fundamental_div_mod(n, lsize * 4);
    vstd::arithmetic::div_mod::lemma_mod_bound(n, lsize * 4);
    vstd::arithmetic::div_mod::lemma_div_pos_is_pos(n, lsize * 4);
    assert(0 <= quads && quads * 4 == (lsize * 4) * q) by (nonlinear_arith)
        requires
            0 <= q,
            0 < lsize,
            quads == q * lsize,
    ;
    let tail = n - quads * 4;
    let rest = after(terms, quads * 4);
    law_two_stage_reduction_is_plain_sum(lsize, quads, 4, terms, tail, 1, rest);
    assert(Seq::new(lsize as nat, |lane: int| quad_lane(n, lsize, lane, terms)) =~= Seq::new(
        lsize as nat,
        |lane: int| two_stages(lsize, lane, quads, 4, terms, tail, 1, rest),
    ));
    lemma_sum_shift(whole(0), 0, tail, quads * 4, rest, terms);
    lemma_sum_split(whole::<A>(0), 0, quads * 4, tail, terms);
    lemma_sum_start(sum_from(whole(0), 0, quads * 4, terms), quads * 4, tail, terms);
    assert(tail * 1 == tail);
}

/// In exact arithmetic a constant row normalises to the bias.
#[allow(clippy::too_many_arguments)]
pub proof fn law_constant_rows_normalise_to_bias<A: Scalar, T: Storage<A>>(
    x: Seq<T>,
    w: Seq<T>,
    b: Seq<T>,
    eps: A,
    n: int,
    lsize: int,
    row: int,
    i: int,
    c: A,
)
    requires
        lossless::<A>(),
        divides::<A>(),
        0 <= i < n,
        0 < lsize,
        whole::<A>(n) != whole::<A>(0),
        forall|j: int| 0 <= j < n ==> (#[trigger] cell(x, n, row, j)).widen_spec() == c,
    ensures
        (normalised::<A, T>(x, w, b, eps, n, lsize))(row, i) == T::narrow_spec(b[i].widen_spec()),
{
    let terms = row_powers::<A, T>(false, x, n, row);
    assert forall|j: int| 0 <= j < n implies #[trigger] terms(j) == c by {
        assert(Storage::<A>::widen_spec(cell(x, n, row, j)) == c);
    }
    law_quad_sum_is_plain_sum(n, lsize, terms);
    lemma_sum_repeated(n, c, terms);
    let mean = row_mean::<A, T>(x, n, lsize, row);
    assert(whole::<A>(n).times_spec(c).over_spec(whole(n)) == c);
    assert(mean == c);
    assert(terms(i) == c);
    times_zero(c);
    times_zero(row_variance::<A, T>(x, n, lsize, row).plus_spec(eps).rsqrt_spec());
    times_zero::<A>(w[i].widen_spec());
    times_zero::<A>(b[i].widen_spec());
}

/// The values of a row, each taken from the mean and squared.
pub open spec fn square_deviations<A: Scalar>(v: spec_fn(int) -> A, mean: A) -> spec_fn(int) -> A {
    |i: int| v(i).minus_spec(mean).times_spec(v(i).minus_spec(mean))
}

/// In exact arithmetic a row's mean times the row's length is the row's sum, and the row's
/// variance is the mean of the squared deviations from it, wherever that is above zero.
pub proof fn law_mean_and_variance<A: Scalar, T: Storage<A>>(
    x: Seq<T>,
    n: int,
    lsize: int,
    row: int,
    v: spec_fn(int) -> A,
)
    requires
        lossless::<A>(),
        divides::<A>(),
        subtracts::<A>(),
        shares::<A>(),
        0 <= n,
        0 < lsize,
        whole::<A>(n) != whole::<A>(0),
        holds_values::<A, T>(x, row * n, n, v),
    ensures
        ({
            let mean = row_mean::<A, T>(x, n, lsize, row);
            let var = row_variance::<A, T>(x, n, lsize, row);
            let spread = plain_sum(n, square_deviations(v, mean));
            &&& whole::<A>(n).times_spec(mean) == plain_sum(n, v)
            &&& spread.over_spec(whole(n)).above_spec(whole(0)) ==> whole::<A>(n).times_spec(var)
                == spread
            &&& !spread.over_spec(whole(n)).above_spec(whole(0)) ==> var == whole::<A>(0)
        }),
{
    let count: A = whole(n);
    let mean = row_mean::<A, T>(x, n, lsize, row);
    let (first, second) = (
        row_powers::<A, T>(false, x, n, row),
        row_powers::<A, T>(true, x, n, row),
    );
    law_quad_sum_is_plain_sum(n, lsize, first);
    law_quad_sum_is_plain_sum(n, lsize, second);
    assert forall|i: int| 0 <= i < n implies #[trigger] first(i) == v(i) by {
        assert(Storage::<A>::widen_spec(x[row * n + i]) == v(i));
    }
    lemma_sum_same(whole(0), 0, n, first, v);
    let (s1, s2) = (plain_sum(n, v), plain_sum(n, second));
    assert(count.times_spec(s1.over_spec(count)) == s1);
    let nm = mean.negated_spec();
    let sq = mean.times_spec(mean);
    // The spread is s2 + (nm * s1 + (nm * s1 + count * sq)).
    let cross = |i: int| nm.times_spec(v(i));
    let flat = |i: int| sq;
    let low = |i: int| cross(i).plus_spec(flat(i));
    let high = |i: int| cross(i).plus_spec(low(i));
    let devs = square_deviations(v, mean);
    lemma_sum_factor(nm, 0, n, v, cross);
    lemma_sum_repeated(n, sq, flat);
    lemma_sum_pairs(0, n, cross, flat, low);
    lemma_sum_pairs(0, n, cross, low, high);
    assert forall|i: int| 0 <= i < n implies #[trigger] devs(i) == second(i).plus_spec(high(i)) by {
        assert(Storage::<A>::widen_spec(x[row * n + i]) == v(i));
        lemma_square(v(i), mean);
    }
    lemma_sum_pairs(0, n, second, high, devs);
    let spread = plain_sum(n, devs);
    let q = count.times_spec(sq);
    let nq = q.negated_spec();
    // nm * s1 is -q.
    assert(nm.times_spec(s1) == nq) by {
        lemma_negatives(mean, s1);
        times_comm(count, mean);
        times_assoc(mean, mean, count);
        times_comm(sq, count);
    }
    lemma_negatives(q, q);
    plus_zero(nq);
    assert(spread == s2.plus_spec(nq));
    let raw = s2.over_spec(count).minus_spec(sq);
    // count * raw is s2 - q.
    assert(count.times_spec(raw) == spread) by {
        times_dist(count, s2.over_spec(count), sq.negated_spec());
        lemma_negatives(count, sq);
        assert(count.times_spec(s2.over_spec(count)) == s2);
    }
    assert(count.times_spec(raw).over_spec(count) == raw);
    times_zero(count);
}

/// In exact arithmetic an output is its element's deviation from the row's mean, times the
/// reciprocal root of variance and `eps`, under the element's weight and bias.
#[allow(clippy::too_many_arguments)]
pub proof fn law_layer_norm<A: Scalar, T: Storage<A>>(
    x: Seq<T>,
    w: Seq<T>,
    b: Seq<T>,
    eps: A,
    before: Seq<T>,
    out: Seq<T>,
    n: int,
    rows: int,
    lsize: int,
    row: int,
    i: int,
    v: spec_fn(int) -> A,
)
    requires
        lossless::<A>(),
        divides::<A>(),
        subtracts::<A>(),
        shares::<A>(),
        filled2(before, out, rows, n, normalised::<A, T>(x, w, b, eps, n, lsize)),
        0 <= row < rows,
        0 <= i < n,
        0 < lsize,
        whole::<A>(n) != whole::<A>(0),
        holds_values::<A, T>(x, row * n, n, v),
    ensures
        ({
            let mean = plain_sum(n, v).over_spec(whole(n));
            let spread = plain_sum(n, square_deviations(v, mean)).over_spec(whole(n));
            let var = if spread.above_spec(whole(0)) {
                spread
            } else {
                whole(0)
            };
            out[row * n + i] == T::narrow_spec(
                v(i).minus_spec(mean).times_spec(var.plus_spec(eps).rsqrt_spec()).times_spec(
                    w[i].widen_spec(),
                ).plus_spec(b[i].widen_spec()),
            )
        }),
{
    law_mean_and_variance::<A, T>(x, n, lsize, row, v);
    let count: A = whole(n);
    let mean = row_mean::<A, T>(x, n, lsize, row);
    let var = row_variance::<A, T>(x, n, lsize, row);
    let spread = plain_sum(n, square_deviations(v, mean));
    assert(count.times_spec(mean).over_spec(count) == mean);
    assert(count.times_spec(var).over_spec(count) == var);
    assert(Storage::<A>::widen_spec(x[row * n + i]) == v(i));
    assert(cell(out, n, row, i) == (normalised::<A, T>(x, w, b, eps, n, lsize))(row, i));
}

/// In exact arithmetic, under weights one and biases zero, outputs add up to nothing, and their
/// squares times variance and `eps` add up to the row's length times its variance.
#[allow(clippy::too_many_arguments)]
pub proof fn law_outputs_are_standardised<A: Scalar, T: Storage<A>>(
    x: Seq<T>,
    w: Seq<T>,
    b: Seq<T>,
    eps: A,
    n: int,
    lsize: int,
    row: int,
    v: spec_fn(int) -> A,
    y: spec_fn(int) -> A,
)
    requires
        lossless::<A>(),
        divides::<A>(),
        subtracts::<A>(),
        shares::<A>(),
        keeps::<A, T>(),
        0 <= n,
        0 < lsize,
        whole::<A>(n) != whole::<A>(0),
        holds_values::<A, T>(x, row * n, n, v),
        forall|i: int|
            0 <= i < n ==> (#[trigger] w[i]).widen_spec() == whole::<A>(1),
        forall|i: int|
            0 <= i < n ==> (#[trigger] b[i]).widen_spec() == whole::<A>(0),
        forall|i: int|
            0 <= i < n ==> #[trigger] y(i) == Storage::<A>::widen_spec(
                (normalised::<A, T>(x, w, b, eps, n, lsize))(row, i),
            ),
        ({
            let whole_var = row_variance::<A, T>(x, n, lsize, row).plus_spec(eps);
            let root = whole_var.rsqrt_spec();
            root.times_spec(root).times_spec(whole_var) == whole::<A>(1)
        }),
    ensures
        plain_sum(n, y) == whole::<A>(0),
        ({
            let mean = row_mean::<A, T>(x, n, lsize, row);
            let var = row_variance::<A, T>(x, n, lsize, row);
            plain_sum(n, |i: int| y(i).times_spec(y(i))).times_spec(var.plus_spec(eps))
                == plain_sum(n, square_deviations(v, mean))
        }),
{
    law_mean_and_variance::<A, T>(x, n, lsize, row, v);
    let count: A = whole(n);
    let mean = row_mean::<A, T>(x, n, lsize, row);
    let nm = mean.negated_spec();
    let total = row_variance::<A, T>(x, n, lsize, row).plus_spec(eps);
    let root = total.rsqrt_spec();
    let rr = root.times_spec(root);
    let dev = |i: int| v(i).plus_spec(nm);
    let flat = |i: int| nm;
    let devs = square_deviations(v, mean);
    let squares = |i: int| y(i).times_spec(y(i));
    assert forall|i: int| 0 <= i < n implies #[trigger] y(i) == root.times_spec(dev(i)) by {
        let d = dev(i);
        assert(Storage::<A>::widen_spec(x[row * n + i]) == v(i));
        assert(v(i).minus_spec(mean) == d);
        assert(Storage::<A>::widen_spec(w[i]) == whole::<A>(1));
        assert(Storage::<A>::widen_spec(b[i]) == whole::<A>(0));
        let s = d.times_spec(root);
        times_one(s);
        plus_zero(s);
        assert(rounded::<A, T>(s) == s);
        times_comm(d, root);
    }
    lemma_sum_factor(root, 0, n, dev, y);
    lemma_sum_pairs(0, n, v, flat, dev);
    lemma_sum_repeated(n, nm, flat);
    lemma_negatives(count, mean);
    lemma_negatives(count.times_spec(mean), mean);
    times_zero(root);
    assert forall|i: int| 0 <= i < n implies #[trigger] squares(i) == rr.times_spec(devs(i)) by {
        let d = dev(i);
        assert(y(i) == root.times_spec(d));
        assert(v(i).minus_spec(mean) == d);
        times_assoc(root, d, root.times_spec(d));
        times_comm(d, root.times_spec(d));
        times_assoc(root, d, d);
        times_assoc(root, root, d.times_spec(d));
    }
    lemma_sum_factor(rr, 0, n, devs, squares);
    let spread = plain_sum(n, devs);
    times_comm(rr, spread);
    times_assoc(spread, rr, total);
    times_one(spread);
}

} // verus!
