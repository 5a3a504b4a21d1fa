//! The integers modulo three, a scalar type without rounding.
//!
//! Two is its own inverse here, so every dyadic number has a value. The type meets all that
//! [`lossless`] and [`ordered`] ask of a scalar.
use crate::exact::{
    divides, dyadics_double, dyadics_multiply, elements, equals_cancel, lanes_add_up, lossless,
    negation_multiplies, one_is_neutral, plain_sum, plus_associates, plus_commutes, products,
    shares, steps_add_up, subtracts, times_associates, times_commutes, times_distributes,
    wholes_add, zero_absorbs, zero_is_neutral,
};
use crate::scalar::{whole, Scalar};
use crate::select::{ordered, ranks};
use vstd::prelude::*;

verus! {

/// A remainder modulo three.
#[derive(Clone, Copy, Debug, PartialEq, Eq, Structural)]
pub enum Trit {
    Zero,
    One,
    Two,
}

/// The representative of a remainder.
pub open spec fn value(t: Trit) -> int {
    match t {
        Trit::Zero => 0,
        Trit::One => 1,
        Trit::Two => 2,
    }
}

/// The remainder of an integer.
pub open spec fn trit(n: int) -> Trit {
    if n % 3 == 0 {
        Trit::Zero
    } else if n % 3 == 1 {
        Trit::One
    } else {
        Trit::Two
    }
}

/// The sum of remainders, from the left.
pub open spec fn trit_sum(parts: Seq<Trit>, n: int) -> Trit
    decreases n,
{
    if n <= 0 {
        Trit::Zero
    } else {
        trit(value(trit_sum(parts, n - 1)) + value(parts[n - 1]))
    }
}

/// The sum of products of remainders, from the left.
pub open spec fn trit_dot(a: Seq<Trit>, b: Seq<Trit>, n: int) -> Trit
    decreases n,
{
    if n <= 0 {
        Trit::Zero
    } else {
        trit(
            value(trit_dot(a, b, n - 1)) + value(trit(value(a[n - 1]) * value(b[n - 1]))),
        )
    }
}

impl Trit {
    /// The representative.
    fn get(self) -> (n: u8)
        ensures
            n == value(self),
    {
        match self {
            Trit::Zero => 0,
            Trit::One => 1,
            Trit::Two => 2,
        }
    }

    /// The remainder of a small number.
    fn of(n: u8) -> (t: Trit)
        ensures
            t == trit(n as int),
    {
        let r: u8 = n % 3;
        if r == 0 {
            Trit::Zero
        } else if r == 1 {
            Trit::One
        } else {
            Trit::Two
        }
    }
}

impl Scalar for Trit {
    open spec fn dyadic_spec(m: int, e: int) -> Trit {
        if e % 2 == 0 {
            trit(m)
        } else {
            trit(2 * m)
        }
    }

    fn dyadic(m: i64, e: i32) -> (r: Trit) {
        let m3: i128 = (m as i128 + 27670116110564327424) % 3;
        let odd: bool = (e as i64 + 4294967296) % 2 == 1;
        if odd {
            Trit::of(2 * m3 as u8)
        } else {
            Trit::of(m3 as u8)
        }
    }

    open spec fn plus_spec(self, other: Trit) -> Trit {
        trit(value(self) + value(other))
    }

    fn plus(self, other: Trit) -> (r: Trit) {
        Trit::of(self.get() + other.get())
    }

    open spec fn minus_spec(self, other: Trit) -> Trit {
        trit(value(self) - value(other))
    }

    fn minus(self, other: Trit) -> (r: Trit) {
        Trit::of(self.get() + 3 - other.get())
    }

    open spec fn times_spec(self, other: Trit) -> Trit {
        trit(value(self) * value(other))
    }

    fn times(self, other: Trit) -> (r: Trit) {
        proof {
            assert(value(self) * value(other) <= 4) by (nonlinear_arith)
                requires
                    0 <= value(self) <= 2,
                    0 <= value(other) <= 2,
            ;
        }
        Trit::of(self.get() * other.get())
    }

    /// Every remainder but zero is its own inverse; a quotient by zero is zero.
    open spec fn over_spec(self, other: Trit) -> Trit {
        trit(value(self) * value(other))
    }

    fn over(self, other: Trit) -> (r: Trit) {
        self.times(other)
    }

    open spec fn negated_spec(self) -> Trit {
        trit(3 - value(self))
    }

    fn negated(self) -> (r: Trit) {
        Trit::of(3 - self.get())
    }

    open spec fn above_spec(self, other: Trit) -> bool {
        value(self) > value(other)
    }

    fn above(self, other: Trit) -> (r: bool) {
        self.get() > other.get()
    }

    open spec fn equals_spec(self, other: Trit) -> bool {
        value(self) == value(other)
    }

    fn equals(self, other: Trit) -> (r: bool) {
        self.get() == other.get()
    }

    open spec fn lowest_spec() -> Trit {
        Trit::Zero
    }

    fn lowest() -> (r: Trit) {
        Trit::Zero
    }

    /// The powers of two.
    open spec fn exp_spec(self) -> Trit {
        if self is One {
            Trit::Two
        } else {
            Trit::One
        }
    }

    fn exp(self) -> (r: Trit) {
        match self {
            Trit::One => Trit::Two,
            _ => Trit::One,
        }
    }

    /// One is the only square with an inverse.
    open spec fn rsqrt_spec(self) -> Trit {
        if self is One {
            Trit::One
        } else {
            Trit::Zero
        }
    }

    fn rsqrt(self) -> (r: Trit) {
        match self {
            Trit::One => Trit::One,
            _ => Trit::Zero,
        }
    }

    open spec fn lanes_sum_spec(parts: Seq<Trit>) -> Trit {
        trit_sum(parts, parts.len() as int)
    }

    fn lanes_sum(parts: &Vec<Trit>) -> (r: Trit) {
        let mut sum = Trit::Zero;
        let mut i: usize = 0;
        while i < parts.len()
            invariant
                i <= parts@.len(),
                sum == trit_sum(parts@, i as int),
            decreases parts@.len() - i,
        {
            sum = sum.plus(parts[i]);
            i = i + 1;
        }
        sum
    }

    open spec fn mma_spec(acc: Trit, a: Seq<Trit>, b: Seq<Trit>) -> Trit {
        trit(value(acc) + value(trit_dot(a, b, a.len() as int)))
    }

    fn mma(acc: Trit, a: &Vec<Trit>, b: &Vec<Trit>) -> (r: Trit) {
        let mut dot = Trit::Zero;
        let mut i: usize = 0;
        while i < a.len()
            invariant
                i <= a@.len(),
                a@.len() == b@.len(),
                dot == trit_dot(a@, b@, i as int),
            decreases a@.len() - i,
        {
            dot = dot.plus(a[i].times(b[i]));
            i = i + 1;
        }
        acc.plus(dot)
    }
}

proof fn lemma_sum(parts: Seq<Trit>, n: int)
    requires
        0 <= n <= parts.len(),
    ensures
        trit_sum(parts, n) == plain_sum(n, elements(parts)),
    decreases n,
{
    if n > 0 {
        lemma_sum(parts, n - 1);
    }
}

proof fn lemma_dot(a: Seq<Trit>, b: Seq<Trit>, n: int)
    ensures
        trit_dot(a, b, n) == plain_sum(n, products(a, b)),
    decreases n,
{
    if n > 0 {
        lemma_dot(a, b, n - 1);
    }
}

/// The representative of a product of remainders.
proof fn lemma_products(m: int, n: int)
    ensures
        trit(value(trit(m)) * value(trit(n))) == trit(m * n),
        trit(value(trit(m)) + value(trit(n))) == trit(m + n),
{
    vstd::arithmetic::div_mod::lemma_mul_mod_noop(m, n, 3);
}

/// Addition modulo three.
proof fn lemma_addition()
    ensures
        plus_commutes::<Trit>(),
        plus_associates::<Trit>(),
        zero_is_neutral::<Trit>(),
        equals_cancel::<Trit>(),
{
    reveal(plus_commutes);
    reveal(plus_associates);
    reveal(zero_is_neutral);
    reveal(equals_cancel);
}

/// Multiplication modulo three.
proof fn lemma_multiplication()
    ensures
        times_commutes::<Trit>(),
        times_associates::<Trit>(),
        times_distributes::<Trit>(),
{
    assert(times_commutes::<Trit>()) by {
        reveal(times_commutes);
        assert forall|a: Trit, b: Trit| #[trigger] a.times_spec(b) == b.times_spec(a) by {
            lemma_ring(a, b, a);
        }
    }
    assert(times_associates::<Trit>()) by {
        reveal(times_associates);
        assert forall|a: Trit, b: Trit, c: Trit| #[trigger]
            a.times_spec(b).times_spec(c) == a.times_spec(b.times_spec(c)) by {
            lemma_ring(a, b, c);
        }
    }
    assert(times_distributes::<Trit>()) by {
        reveal(times_distributes);
        assert forall|a: Trit, b: Trit, c: Trit| #[trigger]
            a.times_spec(b.plus_spec(c)) == a.times_spec(b).plus_spec(a.times_spec(c)) by {
            let (x, y, z) = (value(a), value(b), value(c));
            lemma_products(x, y + z);
            lemma_products(x * y, x * z);
            assert(trit(x) == a);
            assert(x * (y + z) == x * y + x * z) by (nonlinear_arith);
        }
    }
}

/// Zero, one and minus one modulo three.
proof fn lemma_units()
    ensures
        zero_absorbs::<Trit>(),
        one_is_neutral::<Trit>(),
        negation_multiplies::<Trit>(),
{
    reveal(zero_absorbs);
    reveal(one_is_neutral);
    reveal(negation_multiplies);
}

/// Whole and dyadic numbers modulo three.
proof fn lemma_dyadics()
    ensures
        wholes_add::<Trit>(),
        dyadics_multiply::<Trit>(),
        dyadics_double::<Trit>(),
{
    assert(wholes_add::<Trit>()) by {
        reveal(wholes_add);
        assert forall|m: int, n: int| #[trigger]
            whole::<Trit>(m).plus_spec(whole(n)) == whole::<Trit>(m + n) by {
            lemma_products(m, n);
        }
    }
    assert(dyadics_multiply::<Trit>()) by {
        reveal(dyadics_multiply);
        assert forall|m: int, e: int, n: int, f: int| #[trigger]
            Trit::dyadic_spec(m, e).times_spec(Trit::dyadic_spec(n, f)) == Trit::dyadic_spec(
                m * n,
                e + f,
            ) by {
            let a = if e % 2 == 0 {
                m
            } else {
                2 * m
            };
            let b = if f % 2 == 0 {
                n
            } else {
                2 * n
            };
            lemma_products(a, b);
            assert((2 * m) * n == 2 * (m * n) && m * (2 * n) == 2 * (m * n) && (2 * m) * (2 * n)
                == 4 * (m * n)) by (nonlinear_arith);
        }
    }
    assert(dyadics_double::<Trit>()) by {
        reveal(dyadics_double);
    }
}

/// Arithmetic modulo three is exact.
pub proof fn law_trits_are_lossless()
    ensures
        lossless::<Trit>(),
{
    lemma_addition();
    lemma_multiplication();
    lemma_units();
    lemma_dyadics();
    assert(lanes_add_up::<Trit>()) by {
        reveal(lanes_add_up);
        assert forall|parts: Seq<Trit>| #[trigger]
            Trit::lanes_sum_spec(parts) == plain_sum(parts.len() as int, elements(parts)) by {
            lemma_sum(parts, parts.len() as int);
        }
    }
    assert(steps_add_up::<Trit>()) by {
        reveal(steps_add_up);
        assert forall|acc: Trit, a: Seq<Trit>, b: Seq<Trit>|
            a.len() == b.len() implies #[trigger] Trit::mma_spec(acc, a, b) == acc.plus_spec(
            plain_sum(a.len() as int, products(a, b)),
        ) by {
            lemma_dot(a, b, a.len() as int);
        }
    }
}

/// Division modulo three is exact.
pub proof fn law_trits_divide()
    ensures
        divides::<Trit>(),
{
    assert forall|a: Trit, b: Trit, d: Trit|
        a.over_spec(d).plus_spec(b.over_spec(d)) == #[trigger] a.plus_spec(b).over_spec(d) by {
        let (x, y, z) = (value(a), value(b), value(d));
        lemma_products(x * z, y * z);
        lemma_products(x + y, z);
        assert(trit(z) == d);
        assert((x + y) * z == x * z + y * z) by (nonlinear_arith);
    }
    assert forall|d: Trit| #[trigger] whole::<Trit>(0).over_spec(d) == whole::<Trit>(0) by {
        assert(0 * value(d) == 0);
    }
    assert forall|d: Trit| d != whole::<Trit>(0) implies #[trigger] d.over_spec(d) == whole::<
        Trit,
    >(1) by {
        lemma_square(d);
    }
    assert forall|a: Trit, d: Trit| d != whole::<Trit>(0) implies #[trigger] d.times_spec(
        a,
    ).over_spec(d) == a by {
        lemma_square(d);
        lemma_ring(d, a, d);
        lemma_ring(a, d, d);
    }
    assert forall|a: Trit, b: Trit, d: Trit| d != whole::<Trit>(0) implies #[trigger] a.over_spec(
        d,
    ).over_spec(b.over_spec(d)) == a.over_spec(b) by {
        lemma_square(d);
        lemma_ring(a, d, b.over_spec(d));
        lemma_ring(d, b, d);
        lemma_ring(b, d, d);
    }
}

/// The square of a remainder but zero is one.
proof fn lemma_square(d: Trit)
    requires
        d != Trit::Zero,
    ensures
        d.times_spec(d) == Trit::One,
        forall|a: Trit| #[trigger] a.times_spec(Trit::One) == a,
{
    let z = value(d);
    assert(z * z == 1 || z * z == 4) by (nonlinear_arith)
        requires
            z == 1 || z == 2,
    ;
}

/// Products of remainders commute and associate.
proof fn lemma_ring(a: Trit, b: Trit, c: Trit)
    ensures
        a.times_spec(b) == b.times_spec(a),
        a.times_spec(b).times_spec(c) == a.times_spec(b.times_spec(c)),
{
    let (x, y, z) = (value(a), value(b), value(c));
    lemma_products(x * y, z);
    lemma_products(x, y * z);
    assert(trit(z) == c && trit(x) == a);
    assert((x * y) * z == x * (y * z) && x * y == y * x) by (nonlinear_arith);
}

/// The remainders are ordered by their representatives.
pub proof fn law_trits_are_ordered()
    ensures
        ordered::<Trit>(),
{
    let rank = |t: Trit| Some(value(t) as real);
    assert(ranks(rank));
}

/// Subtraction adds the negative, and quotients multiply back.
pub proof fn law_trits_subtract_and_share()
    ensures
        subtracts::<Trit>(),
        shares::<Trit>(),
{
    assert forall|a: Trit, d: Trit| d != whole::<Trit>(0) implies d.times_spec(
        #[trigger] a.over_spec(d),
    ) == a by {
        lemma_square(d);
        lemma_ring(d, a, d);
        lemma_ring(a, d, d);
        lemma_ring(a, d, a);
        lemma_ring(d, a.over_spec(d), d);
        lemma_ring(a.over_spec(d), d, d);
    }
    assert forall|a: Trit, b: Trit| #[trigger] a.minus_spec(b) == a.plus_spec(b.negated_spec()) by {
        let (x, y) = (value(a), value(b));
    }
}

} // verus!
