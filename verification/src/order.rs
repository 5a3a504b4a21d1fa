//! Arithmetic that goes with the order of its numbers.
//!
//! Rounded arithmetic can have this as well as exact arithmetic: rounding keeps the order.
use crate::exact::{lossless, plain_sum, plus_comm, times_zero};
use crate::scalar::{rounded, whole, Scalar, Storage};
use crate::select::{number, ordered, ranks};
use vstd::prelude::*;

verus! {

/// Both are numbers, and `a` is not above `b`.
pub open spec fn at_most<A: Scalar>(a: A, b: A) -> bool {
    &&& number(a)
    &&& number(b)
    &&& !a.above_spec(b)
}

/// A number that is not below zero.
pub open spec fn nonnegative<A: Scalar>(a: A) -> bool {
    at_most(whole(0), a)
}

/// A number above zero.
pub open spec fn positive<A: Scalar>(a: A) -> bool {
    a.above_spec(whole(0))
}

/// A number that can be taken from itself: no infinity.
pub open spec fn finite<A: Scalar>(a: A) -> bool {
    number(a) && number(a.minus_spec(a))
}

/// A sum of what is not negative is no less than either addend.
#[verifier::opaque]
pub open spec fn sums_grow<A: Scalar>() -> bool {
    forall|a: A, b: A|
        nonnegative(a) && nonnegative(b) ==> nonnegative(#[trigger] a.plus_spec(b)) && at_most(
            a,
            a.plus_spec(b),
        )
}

/// Quotients of what is not negative by what is positive grow with the dividend.
#[verifier::opaque]
pub open spec fn quotients_grow<A: Scalar>() -> bool {
    forall|a: A, b: A, d: A|
        nonnegative(a) && at_most(a, b) && finite(b) && positive(d) && finite(d) ==> at_most(
            #[trigger] a.over_spec(d),
            #[trigger] b.over_spec(d),
        )
}

/// Quotients of what is not negative by what is positive shrink with the divisor.
#[verifier::opaque]
pub open spec fn quotients_shrink<A: Scalar>() -> bool {
    forall|a: A, d: A, e: A|
        nonnegative(a) && finite(a) && positive(d) && at_most(d, e) && finite(e) ==> at_most(
            #[trigger] a.over_spec(e),
            #[trigger] a.over_spec(d),
        )
}

/// Differences from one number grow with what it is taken from.
#[verifier::opaque]
pub open spec fn differences_grow<A: Scalar>() -> bool {
    forall|a: A, b: A, m: A|
        at_most(a, b) && number(a.minus_spec(m)) && number(b.minus_spec(m)) ==> at_most(
            #[trigger] a.minus_spec(m),
            #[trigger] b.minus_spec(m),
        )
}

/// Exponentials are not negative, grow with the exponent, and that of zero is positive.
#[verifier::opaque]
pub open spec fn exponentials_grow<A: Scalar>() -> bool {
    &&& forall|a: A| number(a) ==> nonnegative(#[trigger] a.exp_spec())
    &&& forall|a: A, b: A|
        at_most(a, b) ==> at_most(#[trigger] a.exp_spec(), #[trigger] b.exp_spec())
    &&& positive(whole::<A>(0).exp_spec())
}

/// The arithmetic goes with the order. The real numbers have this, compared from any lower
/// bound on.
pub open spec fn goes_with_order<A: Scalar>() -> bool {
    &&& ordered::<A>()
    &&& sums_grow::<A>()
    &&& quotients_grow::<A>()
    &&& quotients_shrink::<A>()
    &&& differences_grow::<A>()
    &&& exponentials_grow::<A>()
}

/// Storing to a `T` buffer and loading from it keeps the order.
pub open spec fn keeps_order<A: Scalar, T: Storage<A>>() -> bool {
    forall|a: A, b: A|
        at_most(a, b) ==> at_most(#[trigger] rounded::<A, T>(a), #[trigger] rounded::<A, T>(b))
}

/// What is above something is a number, as that is.
pub proof fn lemma_above<A: Scalar>(a: A, b: A)
    requires
        ordered::<A>(),
        a.above_spec(b),
    ensures
        number(a),
        number(b),
        at_most(b, a),
{
    let rank = choose|rank: spec_fn(A) -> Option<real>| #[trigger] ranks(rank);
}

/// The order is transitive.
pub proof fn lemma_between<A: Scalar>(a: A, b: A, c: A)
    requires
        ordered::<A>(),
        at_most(a, b),
        at_most(b, c),
    ensures
        at_most(a, c),
{
    let rank = choose|rank: spec_fn(A) -> Option<real>| #[trigger] ranks(rank);
    assert(a.equals_spec(a) && b.equals_spec(b) && c.equals_spec(c));
}

/// What is no less than something positive is positive.
pub proof fn lemma_positive<A: Scalar>(a: A, b: A)
    requires
        ordered::<A>(),
        positive(a),
        at_most(a, b),
    ensures
        positive(b),
{
    let rank = choose|rank: spec_fn(A) -> Option<real>| #[trigger] ranks(rank);
    assert(a.equals_spec(a) && b.equals_spec(b));
}

/// Zero is a number, and not negative.
pub proof fn lemma_zero<A: Scalar>()
    requires
        goes_with_order::<A>(),
    ensures
        nonnegative(whole::<A>(0)),
{
    reveal(exponentials_grow);
    let e = whole::<A>(0).exp_spec();
    lemma_above(e, whole(0));
    let rank = choose|rank: spec_fn(A) -> Option<real>| #[trigger] ranks(rank);
    assert(whole::<A>(0).equals_spec(whole(0)));
}

/// In exact arithmetic every number is finite.
pub proof fn lemma_finite<A: Scalar>(a: A)
    requires
        lossless::<A>(),
        goes_with_order::<A>(),
        number(a),
    ensures
        finite(a),
{
    lemma_zero::<A>();
    times_zero(a);
}

/// A sum of terms that are not negative is not negative.
pub proof fn lemma_sum_nonnegative<A: Scalar>(n: int, f: spec_fn(int) -> A)
    requires
        goes_with_order::<A>(),
        forall|k: int| 0 <= k < n ==> nonnegative(#[trigger] f(k)),
    ensures
        nonnegative(plain_sum(n, f)),
    decreases n,
{
    if n > 0 {
        lemma_sum_nonnegative(n - 1, f);
        assert(nonnegative(f(n - 1)));
        reveal(sums_grow);
        assert(plain_sum(n, f) == plain_sum(n - 1, f).plus_spec(f(n - 1)));
    } else {
        lemma_zero::<A>();
    }
}

/// In exact arithmetic no term exceeds a sum of terms that are not negative.
pub proof fn lemma_term_at_most_sum<A: Scalar>(n: int, f: spec_fn(int) -> A, i: int)
    requires
        lossless::<A>(),
        goes_with_order::<A>(),
        forall|k: int| 0 <= k < n ==> nonnegative(#[trigger] f(k)),
        0 <= i < n,
    ensures
        at_most(f(i), plain_sum(n, f)),
    decreases n,
{
    let before = plain_sum(n - 1, f);
    let last = f(n - 1);
    lemma_sum_nonnegative(n - 1, f);
    assert(nonnegative(f(n - 1)));
    reveal(sums_grow);
    assert(plain_sum(n, f) == before.plus_spec(last));
    if i < n - 1 {
        lemma_term_at_most_sum(n - 1, f, i);
        assert(at_most(before, before.plus_spec(last)));
        lemma_between(f(i), before, before.plus_spec(last));
    } else {
        plus_comm(before, last);
        assert(at_most(last, last.plus_spec(before)));
    }
}

} // verus!
