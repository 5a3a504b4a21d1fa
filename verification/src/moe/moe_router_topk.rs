//! Router selection: the top `k` experts of every token, with softmax weights.
use crate::exact::{
    divides, elements, keeps, lemma_lanes_sum, lemma_sum_padded, lemma_sum_quotient, lossless,
    plain_sum,
};
use crate::scalar::{group_sum, rounded, run_group, sum_from, whole, LaneWork, Scalar, Storage};
use crate::select::{lead, ordered, pick_top, picks, strength, strengths, Contest};
use crate::tensor::{cell, filled2, put_row, read};
use std::marker::PhantomData;
use vstd::prelude::*;

verus! {

/// The logits of row `row`.
pub open spec fn row_logits<A: Scalar, T: Storage<A>>(
    logits: Seq<T>,
    n_experts: int,
    row: int,
) -> spec_fn(int) -> A {
    |j: int| cell(logits, n_experts, row, j).widen_spec()
}

/// The exponentials of a row, relative to its largest logit.
pub open spec fn row_exps<A: Scalar>(v: spec_fn(int) -> A, n: int) -> spec_fn(int) -> A {
    |j: int| v(j).minus_spec(strength(v, n)).exp_spec()
}

/// The exponential of pick `i`, relative to the row's largest logit.
pub open spec fn pick_exp<A: Scalar>(v: spec_fn(int) -> A, n: int, k: int, i: int) -> A {
    strengths(v, n, k)[i].minus_spec(strength(v, n)).exp_spec()
}

/// One partial per lane: lane `i` holds `part(i)` below `k`, zero from there on.
pub open spec fn first_lanes<A: Scalar>(k: int, part: spec_fn(int) -> A) -> Seq<A> {
    Seq::new(
        32,
        |i: int|
            if i < k {
                part(i)
            } else {
                whole(0)
            },
    )
}

/// What the weights are divided by: the picks' own sum where they are normalised, the sum
/// over all experts where they are not.
pub open spec fn divisor<A: Scalar>(v: spec_fn(int) -> A, n: int, k: int, normalise: bool) -> A {
    if normalise {
        A::lanes_sum_spec(first_lanes(k, |i: int| pick_exp(v, n, k, i)))
    } else {
        group_sum(32, n, 1, row_exps(v, n))
    }
}

/// The selected experts, strongest first.
pub open spec fn routed<A: Scalar, T: Storage<A>>(
    logits: Seq<T>,
    n_experts: int,
    k: int,
) -> spec_fn(int, int) -> u32 {
    |row: int, i: int|
        picks(row_logits::<A, T>(logits, n_experts, row), n_experts, k)[i] as u32
}

/// The weights of the selected experts.
pub open spec fn routed_weights<A: Scalar, T: Storage<A>>(
    logits: Seq<T>,
    n_experts: int,
    k: int,
    normalise: bool,
) -> spec_fn(int, int) -> T {
    |row: int, i: int|
        {
            let v = row_logits::<A, T>(logits, n_experts, row);
            T::narrow_spec(
                pick_exp(v, n_experts, k, i).over_spec(divisor(v, n_experts, k, normalise)),
            )
        }
}

struct Logits<'a, A, T> {
    logits: &'a [T],
    n_experts: usize,
    row: usize,
    rows: Ghost<int>,
    registers: PhantomData<A>,
}

impl<'a, A: Scalar, T: Storage<A>> Contest<A> for Logits<'a, A, T> {
    closed spec fn ready(&self) -> bool {
        &&& self.row < self.rows@
        &&& self.rows@ * self.n_experts <= self.logits@.len()
    }

    closed spec fn size(&self) -> int {
        self.n_experts as int
    }

    closed spec fn cand(&self) -> spec_fn(int) -> A {
        row_logits::<A, T>(self.logits@, self.n_experts as int, self.row as int)
    }

    fn get(&self, j: usize) -> (v: A) {
        read(self.logits, self.rows, self.n_experts, self.row, j).widen()
    }
}

struct Exps<'a, 'b, A, T> {
    logits: &'b Logits<'a, A, T>,
    max: A,
}

impl<'a, 'b, A: Scalar, T: Storage<A>> LaneWork<A> for Exps<'a, 'b, A, T> {
    closed spec fn ready(&self) -> bool {
        &&& self.logits.ready()
        &&& self.max == strength(self.logits.cand(), self.logits.size())
    }

    closed spec fn units(&self) -> int {
        self.logits.size()
    }

    closed spec fn unit(&self) -> int {
        1
    }

    closed spec fn terms(&self) -> spec_fn(int) -> A {
        row_exps(self.logits.cand(), self.logits.size())
    }

    fn accumulate(&self, acc: A, u: usize) -> (r: A) {
        proof {
            reveal_with_fuel(sum_from, 2);
        }
        let v: A = self.logits.get(u);
        acc.plus(v.minus(self.max).exp())
    }
}

/// One partial per lane of the first `k`, zeros in the others.
fn pad_lanes<A: Scalar>(parts: &Vec<A>, k: usize) -> (r: Vec<A>)
    requires
        parts@.len() == k,
        k <= 32,
    ensures
        r@ == first_lanes(k as int, |i: int| parts@[i]),
{
    let mut r: Vec<A> = Vec::new();
    let mut i: usize = 0;
    while i < 32
        invariant
            i <= 32,
            parts@.len() == k,
            r@.len() == i,
            forall|l: int|
                0 <= l < i ==> #[trigger] r@[l] == (if l < k {
                    parts@[l]
                } else {
                    whole(0)
                }),
        decreases 32 - i,
    {
        if i < k {
            r.push(parts[i]);
        } else {
            r.push(A::dyadic(0, 0));
        }
        i = i + 1;
    }
    assert(r@ =~= first_lanes(k as int, |i: int| parts@[i]));
    r
}

/// The weights `part / divisor` of the first `k` lanes.
pub(crate) fn divide<A: Scalar, T: Storage<A>>(parts: &Vec<A>, by: A) -> (r: Vec<T>)
    ensures
        r@ == parts@.map_values(|p: A| T::narrow_spec(p.over_spec(by))),
{
    let mut r: Vec<T> = Vec::new();
    let mut i: usize = 0;
    while i < parts.len()
        invariant
            i <= parts@.len(),
            r@.len() == i,
            forall|l: int|
                0 <= l < i ==> #[trigger] r@[l] == T::narrow_spec(parts@[l].over_spec(by)),
        decreases parts@.len() - i,
    {
        r.push(T::narrow(parts[i].over(by)));
        i = i + 1;
    }
    assert(r@ =~= parts@.map_values(|p: A| T::narrow_spec(p.over_spec(by))));
    r
}

/// The sum of the first `k` lanes.
pub(crate) fn sum_first<A: Scalar>(parts: &Vec<A>, k: usize, part: Ghost<spec_fn(int) -> A>) -> (r:
    A)
    requires
        parts@.len() == k,
        k <= 32,
        forall|i: int| 0 <= i < k ==> #[trigger] parts@[i] == part@(i),
    ensures
        r == A::lanes_sum_spec(first_lanes(k as int, part@)),
{
    let lanes: Vec<A> = pad_lanes(parts, k);
    assert(lanes@ =~= first_lanes(k as int, part@));
    A::lanes_sum(&lanes)
}

/// Indices as a buffer holds them.
pub(crate) fn narrow_ids(ids: &Vec<usize>) -> (r: Vec<u32>)
    requires
        forall|i: int| 0 <= i < ids@.len() ==> #[trigger] ids@[i] <= u32::MAX,
    ensures
        r@.len() == ids@.len(),
        forall|i: int| 0 <= i < ids@.len() ==> #[trigger] r@[i] == ids@[i],
{
    let mut r: Vec<u32> = Vec::new();
    let mut i: usize = 0;
    while i < ids.len()
        invariant
            i <= ids@.len(),
            r@.len() == i,
            forall|l: int| 0 <= l < ids@.len() ==> #[trigger] ids@[l] <= u32::MAX,
            forall|l: int| 0 <= l < i ==> #[trigger] r@[l] == ids@[l],
        decreases ids@.len() - i,
    {
        assert(ids@[i as int] <= u32::MAX);
        r.push(ids[i] as u32);
        i = i + 1;
    }
    r
}

/// The experts and weights of one row.
#[verifier::loop_isolation(false)]
fn route_row<A: Scalar, T: Storage<A>>(
    logits: &[T],
    n_experts: usize,
    k: usize,
    normalise: bool,
    row: usize,
    rows: Ghost<int>,
) -> (r: (Vec<u32>, Vec<T>))
    requires
        ordered::<A>(),
        row < rows@,
        rows@ * n_experts <= logits@.len(),
        n_experts + 32 <= u32::MAX,
        k <= 32,
    ensures
        r.0@.len() == k,
        r.1@.len() == k,
        forall|i: int|
            0 <= i < k ==> #[trigger] r.0@[i] == (routed::<A, T>(
                logits@,
                n_experts as int,
                k as int,
            ))(row as int, i),
        forall|i: int|
            0 <= i < k ==> #[trigger] r.1@[i] == (routed_weights::<A, T>(
                logits@,
                n_experts as int,
                k as int,
                normalise,
            ))(row as int, i),
{
    let src = Logits::<A, T> { logits, n_experts, row, rows, registers: PhantomData };
    let ghost v = src.cand();
    let top = lead(&src, n_experts, 32);
    let low: A = A::lowest();
    let max: A = if top.valid && top.value.above(low) {
        top.value
    } else {
        low
    };
    let exps = Exps { logits: &src, max };
    let row_sum: A = run_group(&exps, n_experts, 32);
    let (ids, vals): (Vec<usize>, Vec<A>) = pick_top(&src, n_experts, 32, k);
    let mut parts: Vec<A> = Vec::new();
    let mut i: usize = 0;
    while i < k
        invariant
            i <= k,
            parts@.len() == i,
            forall|l: int|
                0 <= l < i ==> #[trigger] parts@[l] == pick_exp(v, n_experts as int, k as int, l),
        decreases k - i,
    {
        parts.push(vals[i].minus(max).exp());
        i = i + 1;
    }
    let chosen_sum: A = sum_first(
        &parts,
        k,
        Ghost(|i: int| pick_exp(v, n_experts as int, k as int, i)),
    );
    let by: A = if normalise {
        chosen_sum
    } else {
        row_sum
    };
    assert forall|i: int| 0 <= i < ids@.len() implies #[trigger] ids@[i] <= u32::MAX by {
        assert(n_experts > 0 ==> ids@[i] < n_experts);
        assert(ids@[i] as int == picks(v, n_experts as int, k as int)[i]);
        if n_experts == 0 {
            lemma_empty_picks(v, k as int, i);
        }
    }
    let weights: Vec<T> = divide(&parts, by);
    (narrow_ids(&ids), weights)
}

/// Without candidates every pick is 0.
proof fn lemma_empty_picks<A: Scalar>(v: spec_fn(int) -> A, k: int, i: int)
    requires
        0 <= i < k,
    ensures
        picks(v, 0, k)[i] == 0,
    decreases k,
{
    crate::select::lemma_picks(v, 0, k, k - 1);
    if i < k - 1 {
        lemma_empty_picks(v, k - 1, i);
        assert(picks(v, 0, k).take(k - 1)[i] == picks(v, 0, k)[i]);
    }
}

/// Selects the top `k` experts of every row of logits, one simdgroup per row. The weights are
/// the picks' softmax over themselves where `norm_topk_prob` is 1, over all experts elsewhere.
#[allow(clippy::too_many_arguments)]
#[verifier::loop_isolation(false)]
pub fn iron_moe_router_topk<A: Scalar, T: Storage<A>>(
    router_logits: &[T],
    indices_out: &mut Vec<u32>,
    weights_out: &mut Vec<T>,
    n_experts: u32,
    k: u32,
    norm_topk_prob: u32,
    n_rows: u32,
)
    requires
        ordered::<A>(),
        k <= 32,
        n_experts + 32 <= u32::MAX,
        n_rows * n_experts <= router_logits@.len(),
        n_rows * k <= old(indices_out)@.len(),
        n_rows * k <= old(weights_out)@.len(),
    ensures
        filled2(
            old(indices_out)@,
            final(indices_out)@,
            n_rows as int,
            k as int,
            routed::<A, T>(router_logits@, n_experts as int, k as int),
        ),
        filled2(
            old(weights_out)@,
            final(weights_out)@,
            n_rows as int,
            k as int,
            routed_weights::<A, T>(
                router_logits@,
                n_experts as int,
                k as int,
                norm_topk_prob == 1,
            ),
        ),
{
    let ghost (i0, w0) = (indices_out@, weights_out@);
    let ghost ids = routed::<A, T>(router_logits@, n_experts as int, k as int);
    let ghost wts = routed_weights::<A, T>(
        router_logits@,
        n_experts as int,
        k as int,
        norm_topk_prob == 1,
    );
    let rows: Ghost<int> = Ghost(n_rows as int);
    let mut row: usize = 0;
    while row < n_rows as usize
        invariant
            row <= n_rows,
            indices_out@.len() == i0.len(),
            weights_out@.len() == w0.len(),
            forall|r: int, c: int|
                0 <= r < row && 0 <= c < k ==> #[trigger] cell(indices_out@, k as int, r, c) == ids(
                    r,
                    c,
                ),
            forall|r: int, c: int|
                0 <= r < row && 0 <= c < k ==> #[trigger] cell(weights_out@, k as int, r, c) == wts(
                    r,
                    c,
                ),
            forall|i: int| n_rows * k <= i < i0.len() ==> #[trigger] indices_out@[i] == i0[i],
            forall|i: int| n_rows * k <= i < w0.len() ==> #[trigger] weights_out@[i] == w0[i],
        decreases n_rows - row,
    {
        let (chosen, weights): (Vec<u32>, Vec<T>) = route_row::<A, T>(
            router_logits,
            n_experts as usize,
            k as usize,
            norm_topk_prob == 1,
            row,
            rows,
        );
        put_row(indices_out, rows, k as usize, row, &chosen);
        put_row(weights_out, rows, k as usize, row, &weights);
        row = row + 1;
    }
}

/// In exact arithmetic the first `k` lanes add up to the plain sum of their parts.
pub proof fn lemma_first_lanes<A: Scalar>(k: int, part: spec_fn(int) -> A)
    requires
        lossless::<A>(),
        0 <= k <= 32,
    ensures
        A::lanes_sum_spec(first_lanes(k, part)) == plain_sum(k, part),
{
    let lanes = first_lanes(k, part);
    lemma_lanes_sum(lanes);
    assert forall|i: int| 0 <= i < k implies #[trigger] (elements(lanes))(i) == part(0 + i) by {}
    assert forall|i: int| k <= i < k + (32 - k) implies #[trigger] (elements(lanes))(i) == whole::<
        A,
    >(0) by {}
    lemma_sum_padded(k, 32 - k, part, elements(lanes), 0);
}

/// In exact arithmetic normalised weights of a row add up to one.
pub proof fn law_normalised_weights_sum_to_one<A: Scalar, T: Storage<A>>(
    logits: Seq<T>,
    n_experts: int,
    k: int,
    row: int,
)
    requires
        lossless::<A>(),
        divides::<A>(),
        keeps::<A, T>(),
        0 <= k <= 32,
        divisor(row_logits::<A, T>(logits, n_experts, row), n_experts, k, true) != whole::<A>(0),
    ensures
        plain_sum(
            k,
            |i: int|
                Storage::<A>::widen_spec(
                    (routed_weights::<A, T>(logits, n_experts, k, true))(row, i),
                ),
        ) == whole::<A>(1),
{
    let v = row_logits::<A, T>(logits, n_experts, row);
    let by = divisor(v, n_experts, k, true);
    let part = |i: int| pick_exp(v, n_experts, k, i);
    let weights = |i: int|
        Storage::<A>::widen_spec((routed_weights::<A, T>(logits, n_experts, k, true))(row, i));
    assert forall|i: int| 0 <= i < k implies #[trigger] weights(i) == part(i).over_spec(by) by {
        assert(rounded::<A, T>(part(i).over_spec(by)) == part(i).over_spec(by));
    }
    lemma_sum_quotient(by, k, part, weights);
    lemma_first_lanes(k, part);
}

/// In exact arithmetic the normalised weights are the weights over all experts, divided by
/// their own sum.
pub proof fn law_normalising_rescales<A: Scalar, T: Storage<A>>(
    logits: Seq<T>,
    n_experts: int,
    k: int,
    row: int,
    i: int,
)
    requires
        lossless::<A>(),
        divides::<A>(),
        keeps::<A, T>(),
        0 <= k <= 32,
        0 <= i < k,
        divisor(row_logits::<A, T>(logits, n_experts, row), n_experts, k, false) != whole::<A>(0),
    ensures
        Storage::<A>::widen_spec((routed_weights::<A, T>(logits, n_experts, k, true))(row, i))
            == A::over_spec(
            (routed_weights::<A, T>(logits, n_experts, k, false))(row, i).widen_spec(),
            plain_sum(
                k,
                |i: int|
                    Storage::<A>::widen_spec(
                        (routed_weights::<A, T>(logits, n_experts, k, false))(row, i),
                    ),
            ),
        ),
{
    let v = row_logits::<A, T>(logits, n_experts, row);
    let all = divisor(v, n_experts, k, false);
    let own = divisor(v, n_experts, k, true);
    let part = |i: int| pick_exp(v, n_experts, k, i);
    let plain = |i: int|
        Storage::<A>::widen_spec((routed_weights::<A, T>(logits, n_experts, k, false))(row, i));
    assert forall|i: int| 0 <= i < k implies #[trigger] plain(i) == part(i).over_spec(all) by {
        assert(rounded::<A, T>(part(i).over_spec(all)) == part(i).over_spec(all));
    }
    lemma_sum_quotient(all, k, part, plain);
    lemma_first_lanes(k, part);
    assert(rounded::<A, T>(part(i).over_spec(own)) == part(i).over_spec(own));
    assert(plain(i) == part(i).over_spec(all));
    assert(part(i).over_spec(all).over_spec(own.over_spec(all)) == part(i).over_spec(own));
}

} // verus!
