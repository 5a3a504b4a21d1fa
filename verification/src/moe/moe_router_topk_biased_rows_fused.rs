//! Router selection by biased sigmoid scores, with weights from the unbiased ones.
//!
//! Every score is rounded to the buffer type after the sigmoid and again after the bias, as
//! two separate dispatches would leave it.
use crate::exact::{divides, keeps, lemma_sum_quotient, lossless, plain_sum};
use crate::moe::moe_router_topk::{
    divide, first_lanes, lemma_first_lanes, narrow_ids, row_logits, sum_first,
};
use crate::moe::moe_sigmoid_bias::{biased_scores, sigmoid, squash, unbiased_scores};
use crate::scalar::{rounded, whole, Scalar, Storage};
use crate::select::{ordered, pick_top, picks, Contest};
use crate::tensor::{cell, filled2, put_row, read};
use std::marker::PhantomData;
use vstd::prelude::*;

verus! {

/// The score of expert `j` as a buffer holds it.
pub open spec fn unbiased_score<A: Scalar, T: Storage<A>>(
    logits: Seq<T>,
    n_experts: int,
    row: int,
    j: int,
) -> T {
    T::narrow_spec(sigmoid((row_logits::<A, T>(logits, n_experts, row))(j)))
}

/// The scores that the selection goes by: unbiased score plus bias, as a buffer holds it.
pub open spec fn biased_row<A: Scalar, T: Storage<A>>(
    logits: Seq<T>,
    bias: Seq<T>,
    n_experts: int,
    row: int,
) -> spec_fn(int) -> A {
    |j: int|
        T::narrow_spec(
            A::plus_spec(
                unbiased_score::<A, T>(logits, n_experts, row, j).widen_spec(),
                bias[j].widen_spec(),
            ),
        ).widen_spec()
}

/// The selected experts, strongest first.
pub open spec fn routed_biased<A: Scalar, T: Storage<A>>(
    logits: Seq<T>,
    bias: Seq<T>,
    n_experts: int,
    k: int,
) -> spec_fn(int, int) -> u32 {
    |row: int, i: int|
        picks(biased_row::<A, T>(logits, bias, n_experts, row), n_experts, k)[i] as u32
}

/// The unbiased scores of the picks of row `row`.
pub open spec fn picked_scores<A: Scalar, T: Storage<A>>(
    logits: Seq<T>,
    bias: Seq<T>,
    n_experts: int,
    k: int,
    row: int,
) -> spec_fn(int) -> A {
    |i: int|
        unbiased_score::<A, T>(
            logits,
            n_experts,
            row,
            picks(biased_row::<A, T>(logits, bias, n_experts, row), n_experts, k)[i],
        ).widen_spec()
}

/// The weights: each pick's unbiased score by the sum of them.
pub open spec fn routed_biased_weights<A: Scalar, T: Storage<A>>(
    logits: Seq<T>,
    bias: Seq<T>,
    n_experts: int,
    k: int,
) -> spec_fn(int, int) -> T {
    |row: int, i: int|
        {
            let scores = picked_scores::<A, T>(logits, bias, n_experts, k, row);
            T::narrow_spec(scores(i).over_spec(A::lanes_sum_spec(first_lanes(k, scores))))
        }
}

struct Scores<'a, A, T> {
    logits: &'a [T],
    bias: &'a [T],
    n_experts: usize,
    row: usize,
    rows: Ghost<int>,
    registers: PhantomData<A>,
}

impl<'a, A: Scalar, T: Storage<A>> Scores<'a, A, T> {
    spec fn fits(&self) -> bool {
        &&& self.row < self.rows@
        &&& self.rows@ * self.n_experts <= self.logits@.len()
        &&& self.n_experts <= self.bias@.len()
    }

    fn unbiased(&self, j: usize) -> (s: T)
        requires
            self.fits(),
            j < self.n_experts,
        ensures
            s == unbiased_score::<A, T>(
                self.logits@,
                self.n_experts as int,
                self.row as int,
                j as int,
            ),
    {
        let x: A = read(self.logits, self.rows, self.n_experts, self.row, j).widen();
        T::narrow(squash(x))
    }
}

impl<'a, A: Scalar, T: Storage<A>> Contest<A> for Scores<'a, A, T> {
    closed spec fn ready(&self) -> bool {
        self.fits()
    }

    closed spec fn size(&self) -> int {
        self.n_experts as int
    }

    closed spec fn cand(&self) -> spec_fn(int) -> A {
        biased_row::<A, T>(self.logits@, self.bias@, self.n_experts as int, self.row as int)
    }

    fn get(&self, j: usize) -> (v: A) {
        let u: A = self.unbiased(j).widen();
        let biased: T = T::narrow(u.plus(self.bias[j].widen()));
        biased.widen()
    }
}

/// The experts and weights of one row.
#[verifier::loop_isolation(false)]
fn route_row<A: Scalar, T: Storage<A>>(
    logits: &[T],
    bias: &[T],
    n_experts: usize,
    k: usize,
    row: usize,
    rows: Ghost<int>,
) -> (r: (Vec<u32>, Vec<T>))
    requires
        ordered::<A>(),
        row < rows@,
        rows@ * n_experts <= logits@.len(),
        n_experts <= bias@.len(),
        0 < n_experts,
        n_experts + 32 <= u32::MAX,
        k <= 32,
    ensures
        r.0@.len() == k,
        r.1@.len() == k,
        forall|i: int|
            0 <= i < k ==> #[trigger] r.0@[i] == (routed_biased::<A, T>(
                logits@,
                bias@,
                n_experts as int,
                k as int,
            ))(row as int, i),
        forall|i: int|
            0 <= i < k ==> #[trigger] r.1@[i] == (routed_biased_weights::<A, T>(
                logits@,
                bias@,
                n_experts as int,
                k as int,
            ))(row as int, i),
{
    let src = Scores::<A, T> { logits, bias, n_experts, row, rows, registers: PhantomData };
    let ghost scores = picked_scores::<A, T>(
        logits@,
        bias@,
        n_experts as int,
        k as int,
        row as int,
    );
    let (ids, _): (Vec<usize>, Vec<A>) = pick_top(&src, n_experts, 32, k);
    let mut parts: Vec<A> = Vec::new();
    let mut i: usize = 0;
    while i < k
        invariant
            i <= k,
            parts@.len() == i,
            forall|l: int| 0 <= l < i ==> #[trigger] parts@[l] == scores(l),
        decreases k - i,
    {
        assert(ids@[i as int] < n_experts);
        let u: T = src.unbiased(ids[i]);
        parts.push(u.widen());
        i = i + 1;
    }
    let sum: A = sum_first(&parts, k, Ghost(scores));
    let weights: Vec<T> = divide(&parts, sum);
    (narrow_ids(&ids), weights)
}

/// Selects the top `k` experts of every row by `sigmoid(logit) + bias`, one simdgroup per
/// row; the weights are the picks' unbiased scores, normalised.
#[verifier::loop_isolation(false)]
pub fn iron_moe_router_topk_biased_rows_fused<A: Scalar, T: Storage<A>>(
    logits: &[T],
    bias: &[T],
    indices_out: &mut Vec<u32>,
    weights_out: &mut Vec<T>,
    n_experts: u32,
    k: u32,
    n_rows: u32,
)
    requires
        ordered::<A>(),
        k <= 32,
        0 < n_experts,
        n_experts + 32 <= u32::MAX,
        n_rows * n_experts <= logits@.len(),
        n_experts <= bias@.len(),
        n_rows * k <= old(indices_out)@.len(),
        n_rows * k <= old(weights_out)@.len(),
    ensures
        filled2(
            old(indices_out)@,
            final(indices_out)@,
            n_rows as int,
            k as int,
            routed_biased::<A, T>(logits@, bias@, n_experts as int, k as int),
        ),
        filled2(
            old(weights_out)@,
            final(weights_out)@,
            n_rows as int,
            k as int,
            routed_biased_weights::<A, T>(logits@, bias@, n_experts as int, k as int),
        ),
{
    let ghost (i0, w0) = (indices_out@, weights_out@);
    let ghost ids = routed_biased::<A, T>(logits@, bias@, n_experts as int, k as int);
    let ghost wts = routed_biased_weights::<A, T>(logits@, bias@, n_experts as int, k as int);
    let rows: Ghost<int> = Ghost(n_rows as int);
    let mut row: usize = 0;
    while row < n_rows as usize
        invariant
            row <= n_rows,
            indices_out@.len() == i0.len(),
            weights_out@.len() == w0.len(),
            forall|r: int, c: int|
                0 <= r < row && 0 <= c < k ==> #[trigger] cell(indices_out@, k as int, r, c) == ids(
                    r,
                    c,
                ),
            forall|r: int, c: int|
                0 <= r < row && 0 <= c < k ==> #[trigger] cell(weights_out@, k as int, r, c) == wts(
                    r,
                    c,
                ),
            forall|i: int| n_rows * k <= i < i0.len() ==> #[trigger] indices_out@[i] == i0[i],
            forall|i: int| n_rows * k <= i < w0.len() ==> #[trigger] weights_out@[i] == w0[i],
        decreases n_rows - row,
    {
        let (chosen, weights): (Vec<u32>, Vec<T>) = route_row::<A, T>(
            logits,
            bias,
            n_experts as usize,
            k as usize,
            row,
            rows,
        );
        put_row(indices_out, rows, k as usize, row, &chosen);
        put_row(weights_out, rows, k as usize, row, &weights);
        row = row + 1;
    }
}

/// In exact arithmetic the weights of a row add up to one.
pub proof fn law_weights_sum_to_one<A: Scalar, T: Storage<A>>(
    logits: Seq<T>,
    bias: Seq<T>,
    n_experts: int,
    k: int,
    row: int,
)
    requires
        lossless::<A>(),
        divides::<A>(),
        keeps::<A, T>(),
        0 <= k <= 32,
        A::lanes_sum_spec(
            first_lanes(k, picked_scores::<A, T>(logits, bias, n_experts, k, row)),
        ) != whole::<A>(0),
    ensures
        plain_sum(
            k,
            |i: int|
                Storage::<A>::widen_spec(
                    (routed_biased_weights::<A, T>(logits, bias, n_experts, k))(row, i),
                ),
        ) == whole::<A>(1),
{
    let scores = picked_scores::<A, T>(logits, bias, n_experts, k, row);
    let by = A::lanes_sum_spec(first_lanes(k, scores));
    let weights = |i: int|
        Storage::<A>::widen_spec(
            (routed_biased_weights::<A, T>(logits, bias, n_experts, k))(row, i),
        );
    assert forall|i: int| 0 <= i < k implies #[trigger] weights(i) == scores(i).over_spec(by) by {
        assert(rounded::<A, T>(scores(i).over_spec(by)) == scores(i).over_spec(by));
    }
    lemma_sum_quotient(by, k, scores, weights);
    lemma_first_lanes(k, scores);
}

/// Over buffers of full precision the selection goes by the scores that
/// [`iron_moe_sigmoid_bias`](crate::moe::moe_sigmoid_bias::iron_moe_sigmoid_bias) leaves for
/// the row, and the weights come from its unbiased ones.
pub proof fn law_scores_are_sigmoid_bias<A: Scalar>(
    logits: Seq<A>,
    bias: Seq<A>,
    n_experts: int,
    row: int,
    j: int,
)
    requires
        0 <= row,
        0 <= j < n_experts,
        row * n_experts + n_experts <= logits.len(),
    ensures
        (biased_row::<A, A>(logits, bias, n_experts, row))(j) == (biased_scores(
            logits.subrange(row * n_experts, row * n_experts + n_experts),
            bias,
        ))(j),
        unbiased_score::<A, A>(logits, n_experts, row, j) == (unbiased_scores(
            logits.subrange(row * n_experts, row * n_experts + n_experts),
        ))(j),
{
    assert(0 <= row * n_experts) by (nonlinear_arith)
        requires
            0 <= row,
            0 <= n_experts,
    ;
}

} // verus!
