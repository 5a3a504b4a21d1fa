//! Router scores: the sigmoid of the logits, with and without the correction bias.
use crate::exact::shares;
use crate::scalar::{whole, Scalar};
use crate::tensor::filled;
use vstd::prelude::*;

verus! {

/// `1 / (1 + exp(0 - x))`.
pub open spec fn sigmoid<A: Scalar>(x: A) -> A {
    whole::<A>(1).over_spec(whole::<A>(1).plus_spec(whole::<A>(0).minus_spec(x).exp_spec()))
}

/// Computes the sigmoid.
pub(crate) fn squash<A: Scalar>(x: A) -> (r: A)
    ensures
        r == sigmoid(x),
{
    let one: A = A::dyadic(1, 0);
    one.over(one.plus(A::dyadic(0, 0).minus(x).exp()))
}

/// The unbiased scores.
pub open spec fn unbiased_scores<A: Scalar>(logits: Seq<A>) -> spec_fn(int) -> A {
    |i: int| sigmoid(logits[i])
}

/// The biased scores.
pub open spec fn biased_scores<A: Scalar>(logits: Seq<A>, bias: Seq<A>) -> spec_fn(int) -> A {
    |i: int| sigmoid(logits[i]).plus_spec(bias[i])
}

/// Scores the first `n` logits.
pub fn iron_moe_sigmoid_bias<A: Scalar>(
    logits: &[A],
    bias: &[A],
    unbiased: &mut Vec<A>,
    biased: &mut Vec<A>,
    n: u32,
)
    requires
        n <= logits@.len(),
        n <= bias@.len(),
        n <= old(unbiased)@.len(),
        n <= old(biased)@.len(),
    ensures
        filled(old(unbiased)@, final(unbiased)@, n as int, unbiased_scores(logits@)),
        filled(old(biased)@, final(biased)@, n as int, biased_scores(logits@, bias@)),
{
    let ghost (u0, b0) = (unbiased@, biased@);
    let mut i: usize = 0;
    while i < n as usize
        invariant
            i <= n,
            n <= logits@.len(),
            n <= bias@.len(),
            n <= u0.len(),
            n <= b0.len(),
            filled(u0, unbiased@, i as int, unbiased_scores(logits@)),
            filled(b0, biased@, i as int, biased_scores(logits@, bias@)),
        decreases n - i,
    {
        let s: A = squash(logits[i]);
        unbiased[i] = s;
        biased[i] = s.plus(bias[i]);
        i = i + 1;
    }
}

/// A biased score is the unbiased one with the bias added. In exact arithmetic the unbiased
/// score times one and the exponential of the negative logit is one.
#[allow(clippy::too_many_arguments)]
pub proof fn law_scores<A: Scalar>(
    logits: Seq<A>,
    bias: Seq<A>,
    unbiased0: Seq<A>,
    unbiased: Seq<A>,
    biased0: Seq<A>,
    biased: Seq<A>,
    n: int,
    i: int,
)
    requires
        filled(unbiased0, unbiased, n, unbiased_scores(logits)),
        filled(biased0, biased, n, biased_scores(logits, bias)),
        0 <= i < n,
    ensures
        biased[i] == unbiased[i].plus_spec(bias[i]),
        ({
            let whole_part = whole::<A>(1).plus_spec(
                whole::<A>(0).minus_spec(logits[i]).exp_spec(),
            );
            shares::<A>() && whole_part != whole::<A>(0) ==> whole_part.times_spec(unbiased[i])
                == whole::<A>(1)
        }),
{
    assert(unbiased[i] == (unbiased_scores(logits))(i));
    assert(biased[i] == (biased_scores(logits, bias))(i));
}

} // verus!
