//! The arithmetic that the kernels compute with.
//!
//! [`Scalar`] is what a lane holds in a register, [`Storage`] what a buffer holds.
//! Both have an executable half, which an instance writes, and a specification half
//! that the kernels' contracts speak of.
use vstd::prelude::*;

verus! {

/// A register-level scalar.
///
/// The `_spec` functions have a default, so that an instance outside this crate
/// writes the executable half alone; such an instance is taken at its word that each
/// operation is a function of its arguments.
pub trait Scalar: Sized + Copy {
    /// The value `m * 2^e`.
    closed spec fn dyadic_spec(m: int, e: int) -> Self {
        arbitrary()
    }

    fn dyadic(m: i64, e: i32) -> (r: Self)
        ensures
            r == Self::dyadic_spec(m as int, e as int),
    ;

    closed spec fn plus_spec(self, other: Self) -> Self {
        arbitrary()
    }

    fn plus(self, other: Self) -> (r: Self)
        ensures
            r == self.plus_spec(other),
    ;

    closed spec fn minus_spec(self, other: Self) -> Self {
        arbitrary()
    }

    fn minus(self, other: Self) -> (r: Self)
        ensures
            r == self.minus_spec(other),
    ;

    closed spec fn times_spec(self, other: Self) -> Self {
        arbitrary()
    }

    fn times(self, other: Self) -> (r: Self)
        ensures
            r == self.times_spec(other),
    ;

    closed spec fn over_spec(self, other: Self) -> Self {
        arbitrary()
    }

    fn over(self, other: Self) -> (r: Self)
        ensures
            r == self.over_spec(other),
    ;

    closed spec fn negated_spec(self) -> Self {
        arbitrary()
    }

    fn negated(self) -> (r: Self)
        ensures
            r == self.negated_spec(),
    ;

    /// Whether `self > other`; false where either is not a number.
    closed spec fn above_spec(self, other: Self) -> bool {
        arbitrary()
    }

    fn above(self, other: Self) -> (r: bool)
        ensures
            r == self.above_spec(other),
    ;

    /// Whether `self == other`; false where either is not a number.
    closed spec fn equals_spec(self, other: Self) -> bool {
        arbitrary()
    }

    fn equals(self, other: Self) -> (r: bool)
        ensures
            r == self.equals_spec(other),
    ;

    /// The number that no number lies below.
    closed spec fn lowest_spec() -> Self {
        arbitrary()
    }

    fn lowest() -> (r: Self)
        ensures
            r == Self::lowest_spec(),
    ;

    closed spec fn exp_spec(self) -> Self {
        arbitrary()
    }

    fn exp(self) -> (r: Self)
        ensures
            r == self.exp_spec(),
    ;

    /// The reciprocal of the square root.
    closed spec fn rsqrt_spec(self) -> Self {
        arbitrary()
    }

    fn rsqrt(self) -> (r: Self)
        ensures
            r == self.rsqrt_spec(),
    ;

    /// The sum of one partial per lane, in the order in which the lanes are combined.
    closed spec fn lanes_sum_spec(parts: Seq<Self>) -> Self {
        arbitrary()
    }

    fn lanes_sum(parts: &Vec<Self>) -> (r: Self)
        ensures
            r == Self::lanes_sum_spec(parts@),
    ;

    /// One accumulator element of a matrix-multiply step: `acc` plus the product of a
    /// row of the left tile with a row of the (transposed) right tile.
    closed spec fn mma_spec(acc: Self, a: Seq<Self>, b: Seq<Self>) -> Self {
        arbitrary()
    }

    fn mma(acc: Self, a: &Vec<Self>, b: &Vec<Self>) -> (r: Self)
        requires
            a@.len() == b@.len(),
        ensures
            r == Self::mma_spec(acc, a@, b@),
    ;
}

/// A buffer element: narrowed from a register when stored, widened when loaded.
pub trait Storage<A: Scalar>: Sized + Copy {
    closed spec fn widen_spec(self) -> A {
        arbitrary()
    }

    fn widen(self) -> (r: A)
        ensures
            r == self.widen_spec(),
    ;

    closed spec fn narrow_spec(a: A) -> Self {
        arbitrary()
    }

    fn narrow(a: A) -> (r: Self)
        ensures
            r == Self::narrow_spec(a),
    ;
}

/// A register scalar stores as itself.
impl<A: Scalar> Storage<A> for A {
    open spec fn widen_spec(self) -> A {
        self
    }

    fn widen(self) -> (r: A) {
        self
    }

    open spec fn narrow_spec(a: A) -> A {
        a
    }

    fn narrow(a: A) -> (r: A) {
        a
    }
}

/// What a store to a `T` buffer and a load from it leave of a register.
pub open spec fn rounded<A: Scalar, T: Storage<A>>(a: A) -> A {
    T::narrow_spec(a).widen_spec()
}

/// Rounds a register as a `T` buffer does.
pub(crate) fn round<A: Scalar, T: Storage<A>>(a: A) -> (r: A)
    ensures
        r == rounded::<A, T>(a),
{
    T::narrow(a).widen()
}

/// The integer `n` as a scalar.
pub open spec fn whole<A: Scalar>(n: int) -> A {
    A::dyadic_spec(n, 0)
}

/// `init + term(lo) + ... + term(lo + n - 1)`, added from the left.
pub open spec fn sum_from<A: Scalar>(init: A, lo: int, n: int, term: spec_fn(int) -> A) -> A
    decreases n,
{
    if n <= 0 {
        init
    } else {
        sum_from(init, lo, n - 1, term).plus_spec(term(lo + n - 1))
    }
}

/// How many times `lanes` lanes step over `units` units.
pub open spec fn rounds(units: int, lanes: int) -> int {
    (units + lanes - 1) / lanes
}

/// What lane `lane` of `lanes` has accumulated after `n` rounds: in round `t` it owns
/// unit `t * lanes + lane`, if there is one, and adds that unit's `unit` terms in order.
pub open spec fn lane_sum<A: Scalar>(
    init: A,
    n: int,
    lanes: int,
    lane: int,
    units: int,
    unit: int,
    term: spec_fn(int) -> A,
) -> A
    decreases n,
{
    if n <= 0 {
        init
    } else {
        let prev = lane_sum(init, n - 1, lanes, lane, units, unit, term);
        let u = (n - 1) * lanes + lane;
        if u < units {
            sum_from(prev, u * unit, unit, term)
        } else {
            prev
        }
    }
}

/// The partials of all lanes, each started from zero.
pub open spec fn lane_sums<A: Scalar>(
    lanes: int,
    units: int,
    unit: int,
    term: spec_fn(int) -> A,
) -> Seq<A> {
    Seq::new(
        lanes as nat,
        |lane: int| lane_sum(whole(0), rounds(units, lanes), lanes, lane, units, unit, term),
    )
}

/// The reduction of `units * unit` terms strided over `lanes` lanes.
pub open spec fn group_sum<A: Scalar>(
    lanes: int,
    units: int,
    unit: int,
    term: spec_fn(int) -> A,
) -> A {
    A::lanes_sum_spec(lane_sums(lanes, units, unit, term))
}

/// The terms of one reduction, with the buffers that they are read from.
pub(crate) trait LaneWork<A: Scalar> {
    spec fn ready(&self) -> bool;

    spec fn units(&self) -> int;

    spec fn unit(&self) -> int;

    spec fn terms(&self) -> spec_fn(int) -> A;

    /// Adds the terms of unit `u` to `acc`.
    fn accumulate(&self, acc: A, u: usize) -> (r: A)
        requires
            self.ready(),
            u < self.units(),
        ensures
            r == sum_from(acc, u * self.unit(), self.unit(), self.terms()),
    ;
}

/// Runs lane `lane` from `init` through all of its rounds.
pub(crate) fn run_lane<A: Scalar, W: LaneWork<A>>(
    work: &W,
    init: A,
    units: usize,
    lanes: usize,
    lane: usize,
) -> (r: A)
    requires
        work.ready(),
        units == work.units(),
        lane < lanes,
        units + lanes <= usize::MAX,
    ensures
        r == lane_sum(
            init,
            rounds(units as int, lanes as int),
            lanes as int,
            lane as int,
            units as int,
            work.unit(),
            work.terms(),
        ),
{
    let n: usize = (units + lanes - 1) / lanes;
    let mut acc = init;
    let mut t: usize = 0;
    assert(n * lanes <= units + lanes - 1) by (nonlinear_arith)
        requires
            lanes > 0,
            n == (units + lanes - 1) / (lanes as int),
    ;
    while t < n
        invariant
            work.ready(),
            units == work.units(),
            lane < lanes,
            units + lanes <= usize::MAX,
            t <= n,
            n * lanes <= units + lanes - 1,
            acc == lane_sum(
                init,
                t as int,
                lanes as int,
                lane as int,
                units as int,
                work.unit(),
                work.terms(),
            ),
        decreases n - t,
    {
        assert((t + 1) * lanes <= n * lanes) by (nonlinear_arith)
            requires
                t + 1 <= n,
        ;
        assert((t + 1) * lanes == t * lanes + lanes) by (nonlinear_arith);
        let u: usize = t * lanes + lane;
        if u < units {
            acc = work.accumulate(acc, u);
        }
        t = t + 1;
    }
    acc
}

/// Runs all lanes from zero.
pub(crate) fn run_lanes<A: Scalar, W: LaneWork<A>>(work: &W, units: usize, lanes: usize) -> (r: Vec<
    A,
>)
    requires
        work.ready(),
        units == work.units(),
        lanes > 0,
        units + lanes <= usize::MAX,
    ensures
        r@ == lane_sums(lanes as int, units as int, work.unit(), work.terms()),
{
    let mut parts: Vec<A> = Vec::new();
    let mut lane: usize = 0;
    while lane < lanes
        invariant
            work.ready(),
            units == work.units(),
            lane <= lanes,
            units + lanes <= usize::MAX,
            parts@.len() == lane,
            forall|l: int|
                0 <= l < lane ==> parts@[l] == lane_sums(
                    lanes as int,
                    units as int,
                    work.unit(),
                    work.terms(),
                )[l],
        decreases lanes - lane,
    {
        let p = run_lane(work, A::dyadic(0, 0), units, lanes, lane);
        parts.push(p);
        lane = lane + 1;
    }
    parts
}

/// Runs a whole reduction: all lanes, then their sum.
pub(crate) fn run_group<A: Scalar, W: LaneWork<A>>(work: &W, units: usize, lanes: usize) -> (r: A)
    requires
        work.ready(),
        units == work.units(),
        lanes > 0,
        units + lanes <= usize::MAX,
    ensures
        r == group_sum(lanes as int, units as int, work.unit(), work.terms()),
{
    let parts = run_lanes(work, units, lanes);
    A::lanes_sum(&parts)
}

/// A rounded register is the register that the narrowed element widens to; an element that
/// narrows back to itself is not changed by rounding.
pub proof fn law_rounding<A: Scalar, T: Storage<A>>(a: A, t: T)
    ensures
        rounded::<A, T>(a) == Storage::<A>::widen_spec(T::narrow_spec(a)),
        T::narrow_spec(t.widen_spec()) == t ==> rounded::<A, T>(t.widen_spec()) == t.widen_spec(),
{
}

} // verus!
