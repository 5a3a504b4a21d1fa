//! What the kernels compute where arithmetic is exact.
//!
//! The kernels' contracts fix the order of every operation, since rounding depends on it.
//! Over a scalar type without rounding the order does not matter: the reductions are plain
//! sums.
use crate::scalar::{
    group_sum, lane_sum, lane_sums, rounded, rounds, sum_from, whole, Scalar, Storage,
};
use crate::tile::{fma_terms, mma_cell, strip};
use vstd::prelude::*;

verus! {

/// The products of two equally long sequences.
pub open spec fn products<A: Scalar>(a: Seq<A>, b: Seq<A>) -> spec_fn(int) -> A {
    |i: int| a[i].times_spec(b[i])
}

/// The elements of a sequence.
pub open spec fn elements<A>(s: Seq<A>) -> spec_fn(int) -> A {
    |i: int| s[i]
}

/// The plain sum of the first `n` terms.
pub open spec fn plain_sum<A: Scalar>(n: int, term: spec_fn(int) -> A) -> A {
    sum_from(whole(0), 0, n, term)
}

/// Addition commutes.
#[verifier::opaque]
pub open spec fn plus_commutes<A: Scalar>() -> bool {
    forall|a: A, b: A| #[trigger] a.plus_spec(b) == b.plus_spec(a)
}

/// Addition associates.
#[verifier::opaque]
pub open spec fn plus_associates<A: Scalar>() -> bool {
    forall|a: A, b: A, c: A| #[trigger]
        a.plus_spec(b).plus_spec(c) == a.plus_spec(b.plus_spec(c))
}

/// Zero is neutral to addition.
#[verifier::opaque]
pub open spec fn zero_is_neutral<A: Scalar>() -> bool {
    forall|a: A| #[trigger] a.plus_spec(whole(0)) == a
}

/// Multiplication commutes.
#[verifier::opaque]
pub open spec fn times_commutes<A: Scalar>() -> bool {
    forall|a: A, b: A| #[trigger] a.times_spec(b) == b.times_spec(a)
}

/// Multiplication associates.
#[verifier::opaque]
pub open spec fn times_associates<A: Scalar>() -> bool {
    forall|a: A, b: A, c: A| #[trigger]
        a.times_spec(b).times_spec(c) == a.times_spec(b.times_spec(c))
}

/// Multiplication distributes over addition.
#[verifier::opaque]
pub open spec fn times_distributes<A: Scalar>() -> bool {
    forall|a: A, b: A, c: A| #[trigger]
        a.times_spec(b.plus_spec(c)) == a.times_spec(b).plus_spec(a.times_spec(c))
}

/// Multiples of zero are zero.
#[verifier::opaque]
pub open spec fn zero_absorbs<A: Scalar>() -> bool {
    forall|a: A| #[trigger] a.times_spec(whole(0)) == whole::<A>(0)
}

/// One is neutral to multiplication.
#[verifier::opaque]
pub open spec fn one_is_neutral<A: Scalar>() -> bool {
    forall|a: A| #[trigger] a.times_spec(whole(1)) == a
}

/// Negation is multiplication by minus one.
#[verifier::opaque]
pub open spec fn negation_multiplies<A: Scalar>() -> bool {
    forall|a: A| #[trigger] a.negated_spec() == whole::<A>(-1).times_spec(a)
}

/// A number taken from itself leaves zero.
#[verifier::opaque]
pub open spec fn equals_cancel<A: Scalar>() -> bool {
    forall|a: A| #[trigger] a.minus_spec(a) == whole::<A>(0)
}

/// Whole numbers add as they do.
#[verifier::opaque]
pub open spec fn wholes_add<A: Scalar>() -> bool {
    forall|m: int, n: int| #[trigger] whole::<A>(m).plus_spec(whole(n)) == whole::<A>(m + n)
}

/// Dyadic numbers multiply as they do.
#[verifier::opaque]
pub open spec fn dyadics_multiply<A: Scalar>() -> bool {
    forall|m: int, e: int, n: int, f: int| #[trigger]
        A::dyadic_spec(m, e).times_spec(A::dyadic_spec(n, f)) == A::dyadic_spec(m * n, e + f)
}

/// Twice the numerator is one exponent more.
#[verifier::opaque]
pub open spec fn dyadics_double<A: Scalar>() -> bool {
    forall|m: int, e: int| A::dyadic_spec(2 * m, e) == #[trigger] A::dyadic_spec(m, e + 1)
}

/// The lanes' sum is the plain sum of the partials.
#[verifier::opaque]
pub open spec fn lanes_add_up<A: Scalar>() -> bool {
    forall|parts: Seq<A>| #[trigger]
        A::lanes_sum_spec(parts) == plain_sum(parts.len() as int, elements(parts))
}

/// A multiply-accumulate step adds the plain sum of its products.
#[verifier::opaque]
pub open spec fn steps_add_up<A: Scalar>() -> bool {
    forall|acc: A, a: Seq<A>, b: Seq<A>|
        a.len() == b.len() ==> #[trigger] A::mma_spec(acc, a, b) == acc.plus_spec(
            plain_sum(a.len() as int, products(a, b)),
        )
}

/// The scalars form a commutative ring with the dyadic numbers in it, and the lane and tile
/// operations are the sums that they stand for.
pub open spec fn lossless<A: Scalar>() -> bool {
    &&& plus_commutes::<A>()
    &&& plus_associates::<A>()
    &&& zero_is_neutral::<A>()
    &&& times_commutes::<A>()
    &&& times_associates::<A>()
    &&& times_distributes::<A>()
    &&& zero_absorbs::<A>()
    &&& one_is_neutral::<A>()
    &&& negation_multiplies::<A>()
    &&& equals_cancel::<A>()
    &&& wholes_add::<A>()
    &&& dyadics_multiply::<A>()
    &&& dyadics_double::<A>()
    &&& lanes_add_up::<A>()
    &&& steps_add_up::<A>()
}

pub(crate) proof fn plus_comm<A: Scalar>(a: A, b: A)
    requires
        lossless::<A>(),
    ensures
        a.plus_spec(b) == b.plus_spec(a),
{
    reveal(plus_commutes);
}

pub(crate) proof fn plus_assoc<A: Scalar>(a: A, b: A, c: A)
    requires
        lossless::<A>(),
    ensures
        a.plus_spec(b).plus_spec(c) == a.plus_spec(b.plus_spec(c)),
{
    reveal(plus_associates);
}

pub(crate) proof fn plus_zero<A: Scalar>(a: A)
    requires
        lossless::<A>(),
    ensures
        a.plus_spec(whole(0)) == a,
{
    reveal(zero_is_neutral);
}

pub(crate) proof fn times_comm<A: Scalar>(a: A, b: A)
    requires
        lossless::<A>(),
    ensures
        a.times_spec(b) == b.times_spec(a),
{
    reveal(times_commutes);
}

pub(crate) proof fn times_assoc<A: Scalar>(a: A, b: A, c: A)
    requires
        lossless::<A>(),
    ensures
        a.times_spec(b).times_spec(c) == a.times_spec(b.times_spec(c)),
{
    reveal(times_associates);
}

pub(crate) proof fn times_dist<A: Scalar>(a: A, b: A, c: A)
    requires
        lossless::<A>(),
    ensures
        a.times_spec(b.plus_spec(c)) == a.times_spec(b).plus_spec(a.times_spec(c)),
{
    reveal(times_distributes);
}

pub(crate) proof fn times_one<A: Scalar>(a: A)
    requires
        lossless::<A>(),
    ensures
        a.times_spec(whole(1)) == a,
{
    reveal(one_is_neutral);
}

pub(crate) proof fn times_zero<A: Scalar>(a: A)
    requires
        lossless::<A>(),
    ensures
        a.times_spec(whole(0)) == whole::<A>(0),
        whole::<A>(0).times_spec(a) == whole::<A>(0),
        whole::<A>(0).plus_spec(a) == a,
        a.minus_spec(a) == whole::<A>(0),
{
    reveal(zero_absorbs);
    reveal(equals_cancel);
    times_comm(whole(0), a);
    plus_comm(whole(0), a);
    plus_zero(a);
}

/// A factor passes through a negation.
pub(crate) proof fn negated_times<A: Scalar>(a: A, b: A)
    requires
        lossless::<A>(),
    ensures
        a.negated_spec().times_spec(b) == a.times_spec(b).negated_spec(),
{
    reveal(negation_multiplies);
    times_assoc(whole(-1), a, b);
}

/// The product of dyadic numbers.
pub(crate) proof fn dyadic_times<A: Scalar>(m: int, e: int, n: int, f: int)
    requires
        lossless::<A>(),
    ensures
        A::dyadic_spec(m, e).times_spec(A::dyadic_spec(n, f)) == A::dyadic_spec(m * n, e + f),
{
    reveal(dyadics_multiply);
}

/// `n` times the same term.
pub(crate) proof fn lemma_sum_repeated<A: Scalar>(n: int, c: A, f: spec_fn(int) -> A)
    requires
        lossless::<A>(),
        0 <= n,
        forall|k: int| 0 <= k < n ==> #[trigger] f(k) == c,
    ensures
        plain_sum(n, f) == whole::<A>(n).times_spec(c),
    decreases n,
{
    if n == 0 {
        times_zero(c);
    } else {
        lemma_sum_repeated(n - 1, c, f);
        assert(f(n - 1) == c);
        let (m, one): (A, A) = (whole(n - 1), whole(1));
        assert(m.plus_spec(one) == whole::<A>(n)) by {
            reveal(wholes_add);
        }
        times_comm(m, c);
        times_comm(whole(n), c);
        times_dist(c, m, one);
        times_one(c);
    }
}

/// Quotients by one divisor add up, a number but zero goes into itself once, and a factor
/// but zero cancels.
pub open spec fn divides<A: Scalar>() -> bool {
    &&& forall|a: A, b: A, d: A|
        a.over_spec(d).plus_spec(b.over_spec(d)) == #[trigger] a.plus_spec(b).over_spec(d)
    &&& forall|d: A| #[trigger] whole::<A>(0).over_spec(d) == whole::<A>(0)
    &&& forall|d: A| d != whole::<A>(0) ==> #[trigger] d.over_spec(d) == whole::<A>(1)
    &&& forall|a: A, d: A| d != whole::<A>(0) ==> #[trigger] d.times_spec(a).over_spec(d) == a
    &&& forall|a: A, b: A, d: A|
        d != whole::<A>(0) ==> #[trigger] a.over_spec(d).over_spec(b.over_spec(d)) == a.over_spec(b)
}

/// Storing to a `T` buffer and loading from it changes nothing.
pub open spec fn keeps<A: Scalar, T: Storage<A>>() -> bool {
    forall|a: A| #[trigger] rounded::<A, T>(a) == a
}

/// Sums of equal terms are equal.
pub proof fn lemma_sum_same<A: Scalar>(
    init: A,
    lo: int,
    n: int,
    f: spec_fn(int) -> A,
    g: spec_fn(int) -> A,
)
    requires
        forall|k: int| lo <= k < lo + n ==> #[trigger] f(k) == g(k),
    ensures
        sum_from(init, lo, n, f) == sum_from(init, lo, n, g),
    decreases n,
{
    if n > 0 {
        lemma_sum_same(init, lo, n - 1, f, g);
        assert(f(lo + n - 1) == g(lo + n - 1));
    }
}

/// Sums over shifted terms are equal.
pub proof fn lemma_sum_shift<A: Scalar>(
    init: A,
    lo: int,
    n: int,
    by: int,
    f: spec_fn(int) -> A,
    g: spec_fn(int) -> A,
)
    requires
        forall|k: int| lo <= k < lo + n ==> #[trigger] f(k) == g(by + k),
    ensures
        sum_from(init, lo, n, f) == sum_from(init, by + lo, n, g),
    decreases n,
{
    if n > 0 {
        lemma_sum_shift(init, lo, n - 1, by, f, g);
        assert(f(lo + n - 1) == g(by + (lo + n - 1)));
    }
}

/// Lane partials of equal terms are equal.
proof fn lemma_lane_same<A: Scalar>(
    init: A,
    n: int,
    lanes: int,
    lane: int,
    units: int,
    unit: int,
    f: spec_fn(int) -> A,
    g: spec_fn(int) -> A,
)
    requires
        lanes > 0,
        0 <= lane,
        0 <= unit,
        forall|k: int| 0 <= k < units * unit ==> #[trigger] f(k) == g(k),
    ensures
        lane_sum(init, n, lanes, lane, units, unit, f) == lane_sum(
            init,
            n,
            lanes,
            lane,
            units,
            unit,
            g,
        ),
    decreases n,
{
    if n > 0 {
        lemma_lane_same(init, n - 1, lanes, lane, units, unit, f, g);
        let u = (n - 1) * lanes + lane;
        if u < units {
            let prev = lane_sum(init, n - 1, lanes, lane, units, unit, f);
            assert(0 <= u) by (nonlinear_arith)
                requires
                    u == (n - 1) * lanes + lane,
                    n >= 1,
                    lanes > 0,
                    lane >= 0,
            ;
            assert(0 <= u * unit && u * unit + unit <= units * unit) by (nonlinear_arith)
                requires
                    0 <= u,
                    u + 1 <= units,
                    0 <= unit,
            ;
            lemma_sum_same(prev, u * unit, unit, f, g);
        }
    }
}

/// Reductions of equal terms are equal, rounding included.
pub proof fn law_equal_terms_reduce_alike<A: Scalar>(
    lanes: int,
    units: int,
    unit: int,
    f: spec_fn(int) -> A,
    g: spec_fn(int) -> A,
)
    requires
        lanes > 0,
        0 <= unit,
        forall|k: int| 0 <= k < units * unit ==> #[trigger] f(k) == g(k),
    ensures
        group_sum(lanes, units, unit, f) == group_sum(lanes, units, unit, g),
{
    assert forall|lane: int| 0 <= lane < lanes implies #[trigger] lane_sums(
        lanes,
        units,
        unit,
        f,
    )[lane] == lane_sums(lanes, units, unit, g)[lane] by {
        lemma_lane_same(whole(0), rounds(units, lanes), lanes, lane, units, unit, f, g);
    }
    assert(lane_sums(lanes, units, unit, f) =~= lane_sums(lanes, units, unit, g));
}

/// A sum's start can be added last.
pub proof fn lemma_sum_start<A: Scalar>(init: A, lo: int, n: int, f: spec_fn(int) -> A)
    requires
        lossless::<A>(),
    ensures
        sum_from(init, lo, n, f) == init.plus_spec(sum_from(whole(0), lo, n, f)),
    decreases n,
{
    if n > 0 {
        lemma_sum_start(init, lo, n - 1, f);
        plus_assoc(init, sum_from(whole(0), lo, n - 1, f), f(lo + n - 1));
    } else {
        plus_zero(init);
    }
}

/// A sum splits anywhere.
pub proof fn lemma_sum_split<A: Scalar>(init: A, lo: int, m: int, n: int, f: spec_fn(int) -> A)
    requires
        0 <= m,
        0 <= n,
    ensures
        sum_from(init, lo, m + n, f) == sum_from(sum_from(init, lo, m, f), lo + m, n, f),
    decreases n,
{
    if n > 0 {
        lemma_sum_split(init, lo, m, n - 1, f);
    }
}

/// The sum of two sums is the sum of the pairs.
pub proof fn lemma_sum_pairs<A: Scalar>(
    lo: int,
    n: int,
    f: spec_fn(int) -> A,
    g: spec_fn(int) -> A,
    h: spec_fn(int) -> A,
)
    requires
        lossless::<A>(),
        forall|k: int| lo <= k < lo + n ==> #[trigger] h(k) == f(k).plus_spec(g(k)),
    ensures
        sum_from(whole(0), lo, n, h) == sum_from(whole(0), lo, n, f).plus_spec(
            sum_from(whole(0), lo, n, g),
        ),
    decreases n,
{
    if n > 0 {
        lemma_sum_pairs(lo, n - 1, f, g, h);
        let k = lo + n - 1;
        assert(h(k) == f(k).plus_spec(g(k)));
        lemma_four(
            sum_from(whole(0), lo, n - 1, f),
            sum_from(whole(0), lo, n - 1, g),
            f(k),
            g(k),
        );
    } else {
        plus_zero(whole::<A>(0));
    }
}

/// `(a + b) + (c + d) == (a + c) + (b + d)`.
proof fn lemma_four<A: Scalar>(a: A, b: A, c: A, d: A)
    requires
        lossless::<A>(),
    ensures
        a.plus_spec(b).plus_spec(c.plus_spec(d)) == a.plus_spec(c).plus_spec(b.plus_spec(d)),
{
    plus_assoc(a, b, c.plus_spec(d));
    plus_comm(b, c.plus_spec(d));
    plus_assoc(c, d, b);
    plus_comm(d, b);
    plus_assoc(a, c, b.plus_spec(d));
}

/// A common factor can be taken out.
pub proof fn lemma_sum_factor<A: Scalar>(
    c: A,
    lo: int,
    n: int,
    f: spec_fn(int) -> A,
    h: spec_fn(int) -> A,
)
    requires
        lossless::<A>(),
        forall|k: int| lo <= k < lo + n ==> #[trigger] h(k) == c.times_spec(f(k)),
    ensures
        sum_from(whole(0), lo, n, h) == c.times_spec(sum_from(whole(0), lo, n, f)),
    decreases n,
{
    if n > 0 {
        lemma_sum_factor(c, lo, n - 1, f, h);
        let k = lo + n - 1;
        assert(h(k) == c.times_spec(f(k)));
        times_dist(c, sum_from(whole(0), lo, n - 1, f), f(k));
    } else {
        reveal(zero_absorbs);
    }
}

/// The sums of consecutive units, each from zero.
pub open spec fn unit_sums<A: Scalar>(unit: int, f: spec_fn(int) -> A) -> spec_fn(int) -> A {
    |u: int| sum_from(whole(0), u * unit, unit, f)
}

/// Units of terms add up to all terms.
pub proof fn lemma_units<A: Scalar>(lo: int, n: int, unit: int, f: spec_fn(int) -> A)
    requires
        lossless::<A>(),
        0 <= n,
        0 <= unit,
    ensures
        sum_from(whole(0), lo, n, unit_sums(unit, f)) == sum_from(
            whole(0),
            lo * unit,
            n * unit,
            f,
        ),
    decreases n,
{
    if n > 0 {
        lemma_units(lo, n - 1, unit, f);
        let u = lo + n - 1;
        assert(u * unit == lo * unit + (n - 1) * unit && n * unit == (n - 1) * unit + unit && 0 <= (
        n - 1) * unit) by (nonlinear_arith)
            requires
                u == lo + n - 1,
                n >= 1,
                0 <= unit,
        ;
        lemma_sum_split(whole::<A>(0), lo * unit, (n - 1) * unit, unit, f);
        lemma_sum_start(sum_from(whole(0), lo * unit, (n - 1) * unit, f), u * unit, unit, f);
    } else {
        assert(n * unit == 0) by (nonlinear_arith)
            requires
                n == 0,
        ;
    }
}

/// The partials of all lanes after `n` rounds, as terms.
spec fn partials<A: Scalar>(
    n: int,
    lanes: int,
    units: int,
    unit: int,
    f: spec_fn(int) -> A,
) -> spec_fn(int) -> A {
    |lane: int| lane_sum(whole(0), n, lanes, lane, units, unit, f)
}

/// The units that the lanes take in round `t`, as terms; zero past the last unit.
spec fn round_units<A: Scalar>(
    t: int,
    lanes: int,
    units: int,
    unit: int,
    f: spec_fn(int) -> A,
) -> spec_fn(int) -> A {
    |lane: int|
        if t * lanes + lane < units {
            (unit_sums(unit, f))(t * lanes + lane)
        } else {
            whole(0)
        }
}

/// How many units `n` rounds have covered.
spec fn covered(n: int, lanes: int, units: int) -> int {
    if n * lanes < units {
        n * lanes
    } else {
        units
    }
}

/// Terms past the end are zeros.
pub proof fn lemma_sum_padded<A: Scalar>(
    n: int,
    pad: int,
    f: spec_fn(int) -> A,
    g: spec_fn(int) -> A,
    lo: int,
)
    requires
        lossless::<A>(),
        0 <= n,
        0 <= pad,
        forall|i: int| 0 <= i < n ==> #[trigger] g(i) == f(lo + i),
        forall|i: int| n <= i < n + pad ==> #[trigger] g(i) == whole::<A>(0),
    ensures
        sum_from(whole(0), 0, n + pad, g) == sum_from(whole(0), lo, n, f),
    decreases pad,
{
    if pad == 0 {
        lemma_sum_shift(whole(0), 0, n, lo, g, f);
    } else {
        lemma_sum_padded(n, pad - 1, f, g, lo);
        assert(g(n + pad - 1) == whole::<A>(0));
        plus_zero(sum_from(whole(0), 0, n + pad - 1, g));
    }
}

/// After `n` rounds the partials hold the units that were covered.
proof fn lemma_rounds<A: Scalar>(n: int, lanes: int, units: int, unit: int, f: spec_fn(int) -> A)
    requires
        lossless::<A>(),
        lanes > 0,
        0 <= n,
        0 <= units,
    ensures
        sum_from(whole(0), 0, lanes, partials(n, lanes, units, unit, f)) == sum_from(
            whole(0),
            0,
            covered(n, lanes, units),
            unit_sums(unit, f),
        ),
    decreases n,
{
    let sums = unit_sums(unit, f);
    if n == 0 {
        lemma_sum_padded(0, lanes, sums, partials(0, lanes, units, unit, f), 0);
        assert(n * lanes == 0) by (nonlinear_arith)
            requires
                n == 0,
        ;
    } else {
        lemma_rounds(n - 1, lanes, units, unit, f);
        let before = partials(n - 1, lanes, units, unit, f);
        let after = partials(n, lanes, units, unit, f);
        let now = round_units(n - 1, lanes, units, unit, f);
        assert forall|lane: int| 0 <= lane < lanes implies #[trigger] after(lane) == before(
            lane,
        ).plus_spec(now(lane)) by {
            let u = (n - 1) * lanes + lane;
            let prev = before(lane);
            if u < units {
                lemma_sum_start(prev, u * unit, unit, f);
            } else {
                plus_zero(prev);
            }
        }
        lemma_sum_pairs(0, lanes, before, now, after);
        let done = covered(n - 1, lanes, units);
        let fresh = covered(n, lanes, units) - done;
        assert(n * lanes == (n - 1) * lanes + lanes && 0 <= (n - 1) * lanes) by (nonlinear_arith)
            requires
                n >= 1,
                lanes > 0,
        ;
        if fresh > 0 {
            assert(done == (n - 1) * lanes);
            lemma_sum_padded(fresh, lanes - fresh, sums, now, done);
        } else {
            lemma_sum_padded(0, lanes, sums, now, done);
        }
        lemma_sum_split(whole::<A>(0), 0, done, fresh, sums);
        lemma_sum_start(sum_from(whole(0), 0, done, sums), done, fresh, sums);
    }
}

/// A reduction strided over lanes is the plain sum of its terms.
pub proof fn law_reduction_is_plain_sum<A: Scalar>(
    lanes: int,
    units: int,
    unit: int,
    f: spec_fn(int) -> A,
)
    requires
        lossless::<A>(),
        lanes > 0,
        0 <= units,
        0 <= unit,
    ensures
        group_sum(lanes, units, unit, f) == plain_sum(units * unit, f),
{
    let n = rounds(units, lanes);
    let parts = lane_sums(lanes, units, unit, f);
    vstd::arithmetic::div_mod::lemma_fundamental_div_mod(units + lanes - 1, lanes);
    vstd::arithmetic::div_mod::lemma_mod_bound(units + lanes - 1, lanes);
    vstd::arithmetic::div_mod::lemma_div_pos_is_pos(units + lanes - 1, lanes);
    assert(n * lanes == lanes * n) by (nonlinear_arith);
    assert(n * lanes >= units);
    lemma_rounds(n, lanes, units, unit, f);
    lemma_units(0, units, unit, f);
    lemma_lanes_sum(parts);
    lemma_sum_same(whole(0), 0, lanes, elements(parts), partials(n, lanes, units, unit, f));
    assert(0 * unit == 0) by (nonlinear_arith);
}

/// A lane's start can be added last.
proof fn lemma_lane_start<A: Scalar>(
    init: A,
    n: int,
    lanes: int,
    lane: int,
    units: int,
    unit: int,
    f: spec_fn(int) -> A,
)
    requires
        lossless::<A>(),
    ensures
        lane_sum(init, n, lanes, lane, units, unit, f) == init.plus_spec(
            lane_sum(whole(0), n, lanes, lane, units, unit, f),
        ),
    decreases n,
{
    if n <= 0 {
        plus_zero(init);
    } else {
        lemma_lane_start(init, n - 1, lanes, lane, units, unit, f);
        let u = (n - 1) * lanes + lane;
        if u < units {
            let own = lane_sum(whole(0), n - 1, lanes, lane, units, unit, f);
            let more = sum_from(whole(0), u * unit, unit, f);
            lemma_sum_start(init.plus_spec(own), u * unit, unit, f);
            lemma_sum_start(own, u * unit, unit, f);
            plus_assoc(init, own, more);
        }
    }
}

/// A lane's partial over a first stretch of terms and then a second one.
pub open spec fn two_stages<A: Scalar>(
    lanes: int,
    lane: int,
    units: int,
    unit: int,
    f: spec_fn(int) -> A,
    more_units: int,
    more_unit: int,
    g: spec_fn(int) -> A,
) -> A {
    lane_sum(
        lane_sum(whole(0), rounds(units, lanes), lanes, lane, units, unit, f),
        rounds(more_units, lanes),
        lanes,
        lane,
        more_units,
        more_unit,
        g,
    )
}

/// A reduction over two stretches of terms is the plain sum of both.
pub proof fn law_two_stage_reduction_is_plain_sum<A: Scalar>(
    lanes: int,
    units: int,
    unit: int,
    f: spec_fn(int) -> A,
    more_units: int,
    more_unit: int,
    g: spec_fn(int) -> A,
)
    requires
        lossless::<A>(),
        lanes > 0,
        0 <= units,
        0 <= unit,
        0 <= more_units,
        0 <= more_unit,
    ensures
        A::lanes_sum_spec(
            Seq::new(
                lanes as nat,
                |lane: int| two_stages(lanes, lane, units, unit, f, more_units, more_unit, g),
            ),
        ) == plain_sum(units * unit, f).plus_spec(plain_sum(more_units * more_unit, g)),
{
    let parts = Seq::new(
        lanes as nat,
        |lane: int| two_stages(lanes, lane, units, unit, f, more_units, more_unit, g),
    );
    let first = lane_sums(lanes, units, unit, f);
    let second = lane_sums(lanes, more_units, more_unit, g);
    assert forall|lane: int| 0 <= lane < lanes implies #[trigger] (elements(parts))(lane) == (
    elements(first))(lane).plus_spec((elements(second))(lane)) by {
        lemma_lane_start(
            first[lane],
            rounds(more_units, lanes),
            lanes,
            lane,
            more_units,
            more_unit,
            g,
        );
    }
    lemma_sum_pairs(0, lanes, elements(first), elements(second), elements(parts));
    lemma_lanes_sum(parts);
    lemma_lanes_sum(first);
    lemma_lanes_sum(second);
    law_reduction_is_plain_sum(lanes, units, unit, f);
    law_reduction_is_plain_sum(lanes, more_units, more_unit, g);
}

/// The lanes' sum is the plain sum of the partials.
pub proof fn lemma_lanes_sum<A: Scalar>(parts: Seq<A>)
    requires
        lossless::<A>(),
    ensures
        A::lanes_sum_spec(parts) == plain_sum(parts.len() as int, elements(parts)),
{
    reveal(lanes_add_up);
}

/// An accumulator of a tiled product holds the plain sum of its products, whatever the depth
/// of the steps.
pub proof fn law_tiled_product_is_plain_sum<A: Scalar>(
    x: spec_fn(int, int) -> A,
    w: spec_fn(int, int) -> A,
    r: int,
    c: int,
    bk: int,
    n: int,
)
    requires
        lossless::<A>(),
        0 <= bk,
        0 <= n,
    ensures
        mma_cell(x, w, r, c, bk, n) == plain_sum(n * bk, fma_terms(x, w, r, c)),
    decreases n,
{
    let terms = fma_terms(x, w, r, c);
    if n == 0 {
        assert(n * bk == 0) by (nonlinear_arith)
            requires
                n == 0,
        ;
    } else {
        law_tiled_product_is_plain_sum(x, w, r, c, bk, n - 1);
        let lo = (n - 1) * bk;
        assert(n * bk == lo + bk && 0 <= lo) by (nonlinear_arith)
            requires
                n >= 1,
                0 <= bk,
                lo == (n - 1) * bk,
        ;
        let (a, b) = (strip(x, r, lo, bk), strip(w, c, lo, bk));
        let acc = mma_cell(x, w, r, c, bk, n - 1);
        assert(A::mma_spec(acc, a, b) == acc.plus_spec(plain_sum(bk, products(a, b)))) by {
            reveal(steps_add_up);
        }
        assert forall|k: int| 0 <= k < bk implies #[trigger] (products(a, b))(k) == terms(lo + k) by {
            times_comm(x(r, lo + k), w(c, lo + k));
        }
        lemma_sum_shift(whole(0), 0, bk, lo, products(a, b), terms);
        lemma_sum_split(whole::<A>(0), 0, lo, bk, terms);
        lemma_sum_start(sum_from(whole(0), 0, lo, terms), lo, bk, terms);
    }
}

/// Columns past the operands, staged as zeros, add nothing to a tiled product.
pub proof fn law_padded_product_is_plain_sum<A: Scalar>(
    x: spec_fn(int, int) -> A,
    w: spec_fn(int, int) -> A,
    r: int,
    c: int,
    bk: int,
    n: int,
    depth: int,
)
    requires
        lossless::<A>(),
        0 <= bk,
        0 <= n,
        0 <= depth <= n * bk,
        forall|k: int| depth <= k < n * bk ==> #[trigger] x(r, k) == whole::<A>(0),
    ensures
        mma_cell(x, w, r, c, bk, n) == plain_sum(depth, fma_terms(x, w, r, c)),
{
    let terms = fma_terms(x, w, r, c);
    law_tiled_product_is_plain_sum(x, w, r, c, bk, n);
    assert forall|k: int| depth <= k < depth + (n * bk - depth) implies #[trigger] terms(k)
        == whole::<A>(0) by {
        assert(x(r, k) == whole::<A>(0));
        times_zero(w(c, k));
    }
    lemma_sum_padded(depth, n * bk - depth, terms, terms, 0);
}

/// The sum of quotients by one divisor is the quotient of the sum.
pub proof fn lemma_sum_quotient<A: Scalar>(
    d: A,
    n: int,
    f: spec_fn(int) -> A,
    h: spec_fn(int) -> A,
)
    requires
        divides::<A>(),
        forall|k: int| 0 <= k < n ==> #[trigger] h(k) == f(k).over_spec(d),
    ensures
        plain_sum(n, h) == plain_sum(n, f).over_spec(d),
    decreases n,
{
    if n > 0 {
        lemma_sum_quotient(d, n - 1, f, h);
        assert(h(n - 1) == f(n - 1).over_spec(d));
        assert(plain_sum(n, f) == plain_sum(n - 1, f).plus_spec(f(n - 1)));
    }
}

/// `term(0) + term(1) + ...` from the left is the sum from zero.
pub proof fn lemma_sum_from_first<A: Scalar>(n: int, f: spec_fn(int) -> A)
    requires
        lossless::<A>(),
        n >= 1,
    ensures
        sum_from(f(0), 1, n - 1, f) == plain_sum(n, f),
{
    lemma_sum_split(whole::<A>(0), 0, 1, n - 1, f);
    reveal_with_fuel(sum_from, 2);
    plus_comm(whole(0), f(0));
    plus_zero(f(0));
}

/// `(q * s + b) * x == s * (q * x) + b * x`.
pub proof fn lemma_affine_product<A: Scalar>(q: A, s: A, b: A, x: A)
    requires
        lossless::<A>(),
    ensures
        q.times_spec(s).plus_spec(b).times_spec(x) == s.times_spec(q.times_spec(x)).plus_spec(
            b.times_spec(x),
        ),
{
    times_comm(q.times_spec(s).plus_spec(b), x);
    times_dist(x, q.times_spec(s), b);
    times_comm(x, b);
    times_comm(x, q.times_spec(s));
    times_comm(q, s);
    times_assoc(s, q, x);
}

/// A whole number times a power of two, against a value scaled down by that power.
pub proof fn lemma_scaled_product<A: Scalar>(n: int, shift: int, x: A)
    requires
        lossless::<A>(),
        0 <= shift,
    ensures
        A::dyadic_spec(n, shift).times_spec(x.times_spec(A::dyadic_spec(1, -shift))) == whole::<A>(
            n,
        ).times_spec(x),
{
    let (a, b) = (A::dyadic_spec(n, shift), A::dyadic_spec(1, -shift));
    times_comm(x, b);
    times_assoc(a, b, x);
    assert(a.times_spec(b) == A::dyadic_spec(n * 1, shift + -shift)) by {
        reveal(dyadics_multiply);
    }
}

/// `whole(n * 2^s)` is the dyadic number `n * 2^s`.
pub proof fn lemma_shifted_whole<A: Scalar>(n: int, s: nat)
    requires
        lossless::<A>(),
    ensures
        whole::<A>(n * vstd::arithmetic::power2::pow2(s)) == A::dyadic_spec(n, s as int),
    decreases s,
{
    lemma_shifted::<A>(n, s, 0);
}

/// A numerator times a power of two is an exponent more by that power.
pub(crate) proof fn lemma_shifted<A: Scalar>(n: int, s: nat, e: int)
    requires
        lossless::<A>(),
    ensures
        A::dyadic_spec(n * vstd::arithmetic::power2::pow2(s), e) == A::dyadic_spec(n, e + s),
    decreases s,
{
    if s == 0 {
        vstd::arithmetic::power2::lemma2_to64();
    } else {
        let t = (s - 1) as nat;
        lemma_shifted::<A>(n, t, e + 1);
        vstd::arithmetic::power2::lemma_pow2_unfold(s);
        let p = vstd::arithmetic::power2::pow2(t) as int;
        assert(n * (2 * p) == 2 * (n * p)) by (nonlinear_arith);
        reveal(dyadics_double);
        assert(A::dyadic_spec(2 * (n * p), e) == A::dyadic_spec(n * p, e + 1));
    }
}

/// Blocks of `unit` products, each block's sum under its own factor.
pub open spec fn block_sums<A: Scalar>(
    unit: int,
    factor: spec_fn(int) -> A,
    product: spec_fn(int) -> A,
) -> spec_fn(int) -> A {
    |b: int| factor(b).times_spec(plain_sum(unit, |i: int| product(b * unit + i)))
}

/// Terms that carry the factor of their block add up to the blocks' sums.
pub proof fn lemma_blocks<A: Scalar>(
    n: int,
    unit: int,
    terms: spec_fn(int) -> A,
    factor: spec_fn(int) -> A,
    product: spec_fn(int) -> A,
)
    requires
        lossless::<A>(),
        0 <= n,
        0 < unit,
        forall|b: int, i: int|
            0 <= b < n && 0 <= i < unit ==> #[trigger] terms(b * unit + i) == factor(b).times_spec(
                product(b * unit + i),
            ),
    ensures
        plain_sum(n * unit, terms) == plain_sum(n, block_sums(unit, factor, product)),
{
    let sums = unit_sums(unit, terms);
    let blocks = block_sums(unit, factor, product);
    lemma_units(0, n, unit, terms);
    assert(0 * unit == 0) by (nonlinear_arith);
    assert forall|b: int| 0 <= b < n implies #[trigger] sums(b) == blocks(b) by {
        let own = |i: int| product(b * unit + i);
        let scaled = |i: int| terms(b * unit + i);
        assert forall|i: int| 0 <= i < unit implies #[trigger] scaled(i) == factor(b).times_spec(
            own(i),
        ) by {
            assert(terms(b * unit + i) == factor(b).times_spec(product(b * unit + i)));
        }
        lemma_sum_factor(factor(b), 0, unit, own, scaled);
        lemma_sum_shift(whole(0), 0, unit, b * unit, scaled, terms);
    }
    lemma_sum_same(whole(0), 0, n, sums, blocks);
}

/// A plain sum starts at zero and grows by one term at a time.
pub proof fn law_plain_sum_grows<A: Scalar>(n: int, f: spec_fn(int) -> A)
    requires
        0 <= n,
    ensures
        plain_sum(0, f) == A::dyadic_spec(0, 0),
        plain_sum(n + 1, f) == plain_sum(n, f).plus_spec(f(n)),
{
}

/// In exact arithmetic a sum with a single term that is not zero is that term.
pub proof fn lemma_single_term<A: Scalar>(n: int, f: spec_fn(int) -> A, at: int)
    requires
        lossless::<A>(),
        0 <= at < n,
        forall|i: int| 0 <= i < n && i != at ==> #[trigger] f(i) == whole::<A>(0),
    ensures
        plain_sum(n, f) == f(at),
    decreases n,
{
    let last = n - 1;
    if at == last {
        lemma_zero_terms(last, f);
        times_zero(f(at));
    } else {
        lemma_single_term(last, f, at);
        assert(f(last) == whole::<A>(0));
        plus_zero(f(at));
    }
}

/// A sum of zeros is zero.
pub proof fn lemma_zero_terms<A: Scalar>(n: int, f: spec_fn(int) -> A)
    requires
        lossless::<A>(),
        forall|i: int| 0 <= i < n ==> #[trigger] f(i) == whole::<A>(0),
    ensures
        plain_sum(n, f) == whole::<A>(0),
    decreases n,
{
    if n > 0 {
        lemma_zero_terms(n - 1, f);
        assert(f(n - 1) == whole::<A>(0));
        plus_zero(whole::<A>(0));
    }
}

/// To subtract is to add the negative.
pub open spec fn subtracts<A: Scalar>() -> bool {
    forall|a: A, b: A| #[trigger] a.minus_spec(b) == a.plus_spec(b.negated_spec())
}

/// A quotient by a number but zero, times that number, is the dividend.
pub open spec fn shares<A: Scalar>() -> bool {
    forall|a: A, d: A|
        d != whole::<A>(0) ==> d.times_spec(#[trigger] a.over_spec(d)) == a
}

/// Negatives in sums and products.
pub(crate) proof fn lemma_negatives<A: Scalar>(a: A, b: A)
    requires
        lossless::<A>(),
        subtracts::<A>(),
    ensures
        a.plus_spec(a.negated_spec()) == whole::<A>(0),
        a.negated_spec().plus_spec(a) == whole::<A>(0),
        a.negated_spec().negated_spec() == a,
        a.times_spec(b.negated_spec()) == a.times_spec(b).negated_spec(),
        a.negated_spec().times_spec(b) == a.times_spec(b).negated_spec(),
        a.negated_spec().times_spec(b.negated_spec()) == a.times_spec(b),
{
    times_zero(a);
    assert(a.minus_spec(a) == a.plus_spec(a.negated_spec()));
    plus_comm(a, a.negated_spec());
    lemma_twice_negated(a);
    lemma_twice_negated(a.times_spec(b));
    negated_times(a, b);
    negated_times(b, a);
    times_comm(a, b);
    times_comm(a, b.negated_spec());
    negated_times(a, b.negated_spec());
}

/// The negative of the negative.
proof fn lemma_twice_negated<A: Scalar>(a: A)
    requires
        lossless::<A>(),
    ensures
        a.negated_spec().negated_spec() == a,
{
    reveal(negation_multiplies);
    let minus: A = whole(-1);
    times_assoc(minus, minus, a);
    dyadic_times::<A>(-1, 0, -1, 0);
    times_comm(whole(1), a);
    times_one(a);
}

/// The square of a difference.
pub(crate) proof fn lemma_square<A: Scalar>(x: A, m: A)
    requires
        lossless::<A>(),
        subtracts::<A>(),
    ensures
        x.minus_spec(m).times_spec(x.minus_spec(m)) == x.times_spec(x).plus_spec(
            m.negated_spec().times_spec(x).plus_spec(
                m.negated_spec().times_spec(x).plus_spec(m.times_spec(m)),
            ),
        ),
{
    let nm = m.negated_spec();
    let d = x.plus_spec(nm);
    assert(x.minus_spec(m) == d);
    times_dist(d, x, nm);
    times_comm(d, x);
    times_dist(x, x, nm);
    times_comm(x, nm);
    times_comm(d, nm);
    times_dist(nm, x, nm);
    lemma_negatives(m, m);
    let (xx, nx, mm) = (x.times_spec(x), nm.times_spec(x), m.times_spec(m));
    plus_assoc(xx, nx, nx.plus_spec(mm));
}

/// A tiled product of a row of values with a column of weights, told from the two.
pub(crate) proof fn lemma_staged_cell<A: Scalar>(
    x: spec_fn(int, int) -> A,
    w: spec_fn(int, int) -> A,
    r: int,
    c: int,
    bk: int,
    n: int,
    depth: int,
    values: spec_fn(int) -> A,
    weights: spec_fn(int) -> A,
)
    requires
        lossless::<A>(),
        0 <= bk,
        0 <= n,
        0 <= depth <= n * bk,
        forall|k: int| depth <= k < n * bk ==> #[trigger] x(r, k) == whole::<A>(0),
        forall|k: int| 0 <= k < depth ==> x(r, k) == #[trigger] values(k),
        forall|k: int| 0 <= k < depth ==> w(c, k) == #[trigger] weights(k),
    ensures
        mma_cell(x, w, r, c, bk, n) == plain_sum(
            depth,
            |k: int| weights(k).times_spec(values(k)),
        ),
{
    let terms = fma_terms(x, w, r, c);
    let plain = |k: int| weights(k).times_spec(values(k));
    law_padded_product_is_plain_sum(x, w, r, c, bk, n, depth);
    assert forall|k: int| 0 <= k < depth implies #[trigger] terms(k) == plain(k) by {
        assert(x(r, k) == values(k) && w(c, k) == weights(k));
    }
    lemma_sum_same(whole(0), 0, depth, terms, plain);
}

} // verus!
