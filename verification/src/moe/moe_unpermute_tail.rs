//! The combine tail: weighted sum of the expert outputs, shared expert, residual.
//!
//! The value is rounded to the buffer type after each of the three stages, as three separate
//! dispatches would.
use crate::exact::{lemma_sum_same, plain_sum};
use crate::gemm::packed_rows::holds_values;
use crate::rows::{fill_grid, GridWork};
use crate::scalar::{rounded, sum_from, whole, Scalar, Storage};
use crate::tensor::{cell, filled2, lemma_flat, read};
use std::marker::PhantomData;
use vstd::prelude::*;

verus! {

/// The weighted outputs of a token's experts at element `h`.
pub open spec fn expert_terms<A: Scalar, T: Storage<A>>(
    expert_outputs: Seq<T>,
    inv_perm: Seq<u32>,
    weights: Seq<T>,
    hidden: int,
    k: int,
    token: int,
    h: int,
) -> spec_fn(int) -> A {
    |j: int|
        cell(weights, k, token, j).widen_spec().times_spec(
            cell(expert_outputs, hidden, cell(inv_perm, k, token, j) as int, h).widen_spec(),
        )
}

/// The weighted sum of the expert outputs, as a buffer holds it.
pub open spec fn unpermuted<A: Scalar, T: Storage<A>>(
    expert_outputs: Seq<T>,
    inv_perm: Seq<u32>,
    weights: Seq<T>,
    hidden: int,
    k: int,
    token: int,
    h: int,
) -> T {
    T::narrow_spec(
        sum_from(
            whole::<A>(0),
            0,
            k,
            expert_terms::<A, T>(expert_outputs, inv_perm, weights, hidden, k, token, h),
        ),
    )
}

/// The sum of two buffer elements, as a buffer holds it.
pub open spec fn added<A: Scalar, T: Storage<A>>(a: T, b: T) -> T {
    T::narrow_spec(A::plus_spec(a.widen_spec(), b.widen_spec()))
}

/// The outputs: unpermute, then add the shared expert where there is one, then the residual.
#[allow(clippy::too_many_arguments)]
pub open spec fn combined<A: Scalar, T: Storage<A>>(
    expert_outputs: Seq<T>,
    inv_perm: Seq<u32>,
    weights: Seq<T>,
    shared: Seq<T>,
    residual: Seq<T>,
    hidden: int,
    k: int,
    has_shared: bool,
) -> spec_fn(int, int) -> T {
    |token: int, h: int|
        {
            let sum = unpermuted::<A, T>(
                expert_outputs,
                inv_perm,
                weights,
                hidden,
                k,
                token,
                h,
            );
            let with = if has_shared {
                added::<A, T>(sum, cell(shared, hidden, token, h))
            } else {
                sum
            };
            added::<A, T>(with, cell(residual, hidden, token, h))
        }
}

/// Every slot's expert output is there.
pub open spec fn slots_fit<T>(
    expert_outputs: Seq<T>,
    inv_perm: Seq<u32>,
    hidden: int,
    slots: int,
) -> bool {
    &&& slots <= inv_perm.len()
    &&& forall|s: int|
        0 <= s < slots ==> (#[trigger] inv_perm[s] + 1) * hidden <= expert_outputs.len()
}

struct Tail<'a, A, T> {
    expert_outputs: &'a [T],
    inv_perm: &'a [u32],
    weights: &'a [T],
    shared: &'a [T],
    residual: &'a [T],
    hidden: usize,
    k: usize,
    tokens: usize,
    has_shared: bool,
    registers: PhantomData<A>,
}

impl<'a, A: Scalar, T: Storage<A>> GridWork<T> for Tail<'a, A, T> {
    closed spec fn ready(&self) -> bool {
        &&& slots_fit(
            self.expert_outputs@,
            self.inv_perm@,
            self.hidden as int,
            self.tokens * self.k,
        )
        &&& self.tokens * self.k <= self.weights@.len()
        &&& self.has_shared ==> self.tokens * self.hidden <= self.shared@.len()
        &&& self.tokens * self.hidden <= self.residual@.len()
    }

    closed spec fn rows(&self) -> int {
        self.tokens as int
    }

    closed spec fn cols(&self) -> int {
        self.hidden as int
    }

    closed spec fn values(&self) -> spec_fn(int, int) -> T {
        combined::<A, T>(
            self.expert_outputs@,
            self.inv_perm@,
            self.weights@,
            self.shared@,
            self.residual@,
            self.hidden as int,
            self.k as int,
            self.has_shared,
        )
    }

    #[verifier::loop_isolation(false)]
    fn at(&self, r: usize, c: usize) -> (v: T) {
        let ghost terms = expert_terms::<A, T>(
            self.expert_outputs@,
            self.inv_perm@,
            self.weights@,
            self.hidden as int,
            self.k as int,
            r as int,
            c as int,
        );
        let rows: Ghost<int> = Ghost(self.tokens as int);
        let mut acc: A = A::dyadic(0, 0);
        let mut j: usize = 0;
        while j < self.k
            invariant
                j <= self.k,
                acc == sum_from(whole::<A>(0), 0, j as int, terms),
            decreases self.k - j,
        {
            proof {
                lemma_flat(self.tokens as int, self.k as int, r as int, j as int);
            }
            let pos: u32 = read(self.inv_perm, rows, self.k, r, j);
            let v: A = read(
                self.expert_outputs,
                Ghost(pos + 1),
                self.hidden,
                pos as usize,
                c,
            ).widen();
            let w: A = read(self.weights, rows, self.k, r, j).widen();
            acc = acc.plus(w.times(v));
            j = j + 1;
        }
        let mut result: T = T::narrow(acc);
        if self.has_shared {
            let shared: A = read(self.shared, rows, self.hidden, r, c).widen();
            result = T::narrow(result.widen().plus(shared));
        }
        let residual: A = read(self.residual, rows, self.hidden, r, c).widen();
        T::narrow(result.widen().plus(residual))
    }
}

/// Combines the expert outputs of every token with the shared expert and the residual, 128
/// lanes per token. The shared expert is left out, and not read, where `has_shared` is 0.
#[allow(clippy::too_many_arguments)]
pub fn iron_moe_unpermute_tail<A: Scalar, T: Storage<A>>(
    expert_outputs: &[T],
    inv_perm: &[u32],
    top_k_weights: &[T],
    shared_expert_out: &[T],
    residual: &[T],
    out: &mut Vec<T>,
    hidden: u32,
    k: u32,
    has_shared: u32,
    n_tokens: u32,
)
    requires
        slots_fit(expert_outputs@, inv_perm@, hidden as int, n_tokens * k),
        n_tokens * k <= top_k_weights@.len(),
        has_shared != 0 ==> n_tokens * hidden <= shared_expert_out@.len(),
        n_tokens * hidden <= residual@.len(),
        n_tokens * hidden <= old(out)@.len(),
        hidden + 128 <= u32::MAX,
    ensures
        filled2(
            old(out)@,
            final(out)@,
            n_tokens as int,
            hidden as int,
            combined::<A, T>(
                expert_outputs@,
                inv_perm@,
                top_k_weights@,
                shared_expert_out@,
                residual@,
                hidden as int,
                k as int,
                has_shared != 0,
            ),
        ),
{
    let work = Tail::<A, T> {
        expert_outputs,
        inv_perm,
        weights: top_k_weights,
        shared: shared_expert_out,
        residual,
        hidden: hidden as usize,
        k: k as usize,
        tokens: n_tokens as usize,
        has_shared: has_shared != 0,
        registers: PhantomData,
    };
    fill_grid(&work, out, n_tokens as usize, hidden as usize, 128);
}

/// Element `h` of a token is rounded three times: the sum of the expert outputs that the
/// token's slots name, each under its weight; that with the shared expert's output, where
/// there is one; that with the residual.
#[allow(clippy::too_many_arguments)]
pub proof fn law_combine<A: Scalar, T: Storage<A>>(
    expert_outputs: Seq<T>,
    inv_perm: Seq<u32>,
    weights: Seq<T>,
    shared: Seq<T>,
    residual: Seq<T>,
    before: Seq<T>,
    out: Seq<T>,
    hidden: int,
    k: int,
    has_shared: bool,
    tokens: int,
    token: int,
    h: int,
    w: spec_fn(int) -> A,
    y: spec_fn(int) -> A,
)
    requires
        filled2(
            before,
            out,
            tokens,
            hidden,
            combined::<A, T>(
                expert_outputs,
                inv_perm,
                weights,
                shared,
                residual,
                hidden,
                k,
                has_shared,
            ),
        ),
        0 <= token < tokens,
        0 <= h < hidden,
        holds_values::<A, T>(weights, token * k, k, w),
        forall|j: int|
            0 <= j < k ==> expert_outputs[inv_perm[token * k + j] * hidden + h].widen_spec()
                == #[trigger] y(j),
    ensures
        ({
            let sum = rounded::<A, T>(plain_sum(k, |j: int| w(j).times_spec(y(j))));
            let with = if has_shared {
                rounded::<A, T>(sum.plus_spec(shared[token * hidden + h].widen_spec()))
            } else {
                sum
            };
            out[token * hidden + h] == T::narrow_spec(
                with.plus_spec(residual[token * hidden + h].widen_spec()),
            )
        }),
{
    let terms = expert_terms::<A, T>(
        expert_outputs,
        inv_perm,
        weights,
        hidden,
        k,
        token,
        h,
    );
    let plain = |j: int| w(j).times_spec(y(j));
    assert forall|j: int| 0 <= j < k implies #[trigger] terms(j) == plain(j) by {
        assert(Storage::<A>::widen_spec(weights[token * k + j]) == w(j));
        assert(Storage::<A>::widen_spec(
            expert_outputs[inv_perm[token * k + j] * hidden + h],
        ) == y(j));
    }
    lemma_sum_same(whole::<A>(0), 0, k, terms, plain);
    assert(cell(out, hidden, token, h) == (combined::<A, T>(
        expert_outputs,
        inv_perm,
        weights,
        shared,
        residual,
        hidden,
        k,
        has_shared,
    ))(token, h));
}

} // verus!
