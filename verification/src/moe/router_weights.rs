//! How the router's weights compare, with and without normalisation.
use crate::exact::{
    divides, keeps, law_reduction_is_plain_sum, lemma_sum_pairs, lemma_sum_quotient,
    lemma_sum_repeated, lemma_sum_same, lossless, plain_sum, plus_assoc, plus_comm, plus_zero,
    times_zero,
};
use crate::gemm::packed_rows::holds_values;
use crate::moe::moe_router_topk::{
    divisor, law_normalised_weights_sum_to_one, lemma_first_lanes, pick_exp, routed,
    routed_weights, row_exps, row_logits,
};
use crate::moe::moe_router_topk_biased_rows_fused::{
    biased_row, picked_scores, routed_biased, routed_biased_weights, unbiased_score,
};
use crate::order::{
    at_most, differences_grow, exponentials_grow, finite, goes_with_order, keeps_order,
    lemma_above, lemma_finite, lemma_positive, lemma_sum_nonnegative, lemma_term_at_most_sum,
    lemma_zero, nonnegative, positive, quotients_grow, quotients_shrink, sums_grow,
};
use crate::scalar::{rounded, whole, Scalar, Storage};
use crate::select::{
    law_nothing_left, law_picks_descend, lemma_picks, masked, number, ordered, picks, ranks,
    strength, strengths,
};
use crate::tensor::{cell, filled2};
use vstd::prelude::*;

verus! {

/// Logits above the lowest number, each of which can be compared with the largest by
/// difference: finite ones.
pub open spec fn plain_logits<A: Scalar>(v: spec_fn(int) -> A, n: int) -> bool {
    forall|j: int|
        0 <= j < n ==> (#[trigger] v(j)).above_spec(A::lowest_spec()) && number(
            v(j).minus_spec(strength(v, n)),
        )
}

/// As many different picks as candidates leave none over.
proof fn lemma_none_left(s: Seq<int>, n: int, j: int)
    requires
        s.len() == n,
        s.no_duplicates(),
        forall|i: int| 0 <= i < n ==> 0 <= #[trigger] s[i] < n,
        0 <= j < n,
    ensures
        s.contains(j),
{
    let range = vstd::set_lib::set_int_range(0, n);
    vstd::set_lib::lemma_int_range(0, n);
    vstd::seq_lib::seq_to_set_is_finite(s);
    s.unique_seq_to_set();
    assert(s.to_set().subset_of(range));
    vstd::set_lib::lemma_subset_equality(s.to_set(), range);
    assert(range.contains(j));
    assert(s.to_set().contains(j));
}

/// At least `k` of the first `n` candidates are above the lowest number: `some` lists them.
pub open spec fn enough_high<A: Scalar>(
    v: spec_fn(int) -> A,
    n: int,
    k: int,
    some: Seq<int>,
) -> bool {
    &&& some.len() == k
    &&& some.no_duplicates()
    &&& forall|i: int|
        0 <= i < k ==> 0 <= #[trigger] some[i] < n && v(some[i]).above_spec(A::lowest_spec())
}

/// Fewer picks than candidates of a list leave one of the list over.
proof fn lemma_some_left(s: Seq<int>, some: Seq<int>) -> (left: int)
    requires
        s.len() < some.len(),
        some.no_duplicates(),
    ensures
        some.contains(left),
        !s.contains(left),
{
    if forall|j: int| some.contains(j) ==> s.contains(j) {
        vstd::seq_lib::seq_to_set_is_finite(s);
        vstd::seq_lib::seq_to_set_is_finite(some);
        s.lemma_cardinality_of_set();
        some.unique_seq_to_set();
        assert(some.to_set().subset_of(s.to_set()));
        vstd::set_lib::lemma_len_subset(some.to_set(), s.to_set());
    }
    choose|j: int| some.contains(j) && !s.contains(j)
}

/// Among enough candidates above the lowest number the picks are different candidates, and
/// their strengths are their values.
proof fn lemma_high_picks<A: Scalar>(v: spec_fn(int) -> A, n: int, k: int, some: Seq<int>)
    requires
        ordered::<A>(),
        enough_high(v, n, k, some),
        0 <= k <= n,
    ensures
        picks(v, n, k).len() == k,
        picks(v, n, k).no_duplicates(),
        forall|i: int|
            0 <= i < k ==> 0 <= #[trigger] picks(v, n, k)[i] < n && strengths(v, n, k)[i] == v(
                picks(v, n, k)[i],
            ) && v(picks(v, n, k)[i]).above_spec(A::lowest_spec()),
{
    let p = picks(v, n, k);
    lemma_picks(v, n, k, k);
    assert forall|i: int| 0 <= i < k implies 0 <= #[trigger] p[i] < n && strengths(v, n, k)[i] == v(
        p[i],
    ) && v(p[i]).above_spec(A::lowest_spec()) && !picks(v, n, i).contains(p[i]) by {
        lemma_picks(v, n, i, i);
        let left = lemma_some_left(picks(v, n, i), some);
        let at = choose|j: int| 0 <= j < some.len() && some[j] == left;
        assert(some[at] == left);
        assert(v(left).above_spec(A::lowest_spec()));
        law_picks_descend(v, n, k, i, left);
    }
    assert forall|i: int, j: int| 0 <= i < j < k implies p[i] != p[j] by {
        lemma_picks(v, n, k, j);
        assert(!picks(v, n, j).contains(p[j]));
        assert(picks(v, n, j)[i] == p.take(j)[i]);
    }
}

/// [`lemma_high_picks`] for plain logits.
proof fn lemma_plain_picks<A: Scalar>(v: spec_fn(int) -> A, n: int, k: int)
    requires
        goes_with_order::<A>(),
        plain_logits(v, n),
        0 <= k <= n,
    ensures
        picks(v, n, k).len() == k,
        picks(v, n, k).no_duplicates(),
        forall|i: int|
            0 <= i < k ==> 0 <= #[trigger] picks(v, n, k)[i] < n && strengths(v, n, k)[i] == v(
                picks(v, n, k)[i],
            ),
{
    let some = Seq::new(k as nat, |i: int| i);
    assert forall|i: int| 0 <= i < k implies 0 <= #[trigger] some[i] < n && v(some[i]).above_spec(
        A::lowest_spec(),
    ) by {
        assert(v(i).above_spec(A::lowest_spec()));
    }
    lemma_high_picks(v, n, k, some);
}

/// The terms of the candidates that are not in `p`.
spec fn left_out<A: Scalar>(p: Seq<int>, f: spec_fn(int) -> A) -> spec_fn(int) -> A {
    |j: int|
        if p.contains(j) {
            whole(0)
        } else {
            f(j)
        }
}

/// One term among zeros.
spec fn alone<A: Scalar>(m: int, a: A) -> spec_fn(int) -> A {
    |j: int|
        if j == m {
            a
        } else {
            whole(0)
        }
}

/// One term among zeros is their sum.
proof fn lemma_alone<A: Scalar>(n: int, m: int, a: A)
    requires
        lossless::<A>(),
        0 <= n,
        0 <= m,
    ensures
        plain_sum(n, alone(m, a)) == (if m < n {
            a
        } else {
            whole(0)
        }),
    decreases n,
{
    if n > 0 {
        lemma_alone(n - 1, m, a);
        let f = alone(m, a);
        assert(plain_sum(n, f) == plain_sum(n - 1, f).plus_spec(f(n - 1)));
        if m == n - 1 {
            times_zero(a);
        } else {
            plus_zero(plain_sum(n - 1, f));
        }
    }
}

/// In exact arithmetic a sum is that of the terms at `p` and that of the others.
proof fn lemma_parted<A: Scalar>(p: Seq<int>, n: int, f: spec_fn(int) -> A, part: spec_fn(int) -> A)
    requires
        lossless::<A>(),
        0 <= n,
        p.no_duplicates(),
        forall|i: int| 0 <= i < p.len() ==> 0 <= #[trigger] p[i] < n,
        forall|i: int| 0 <= i < p.len() ==> #[trigger] part(i) == f(p[i]),
    ensures
        plain_sum(n, f) == plain_sum(p.len() as int, part).plus_spec(plain_sum(n, left_out(p, f))),
    decreases p.len(),
{
    let rest = left_out(p, f);
    if p.len() == 0 {
        lemma_sum_same(whole(0), 0, n, f, rest);
        times_zero(plain_sum(n, rest));
    } else {
        let q = p.drop_last();
        let m = p.last();
        let one = alone(m, f(m));
        let before = left_out(q, f);
        assert(p == q.push(m));
        assert forall|i: int| 0 <= i < q.len() implies 0 <= #[trigger] q[i] < n && part(i) == f(
            q[i],
        ) by {
            assert(q[i] == p[i]);
        }
        lemma_parted(q, n, f, part);
        assert forall|j: int| 0 <= j < n implies #[trigger] before(j) == rest(j).plus_spec(
            one(j),
        ) by {
            if j == m {
                assert(p[p.len() - 1] == m);
                assert(p.contains(j));
                if q.contains(m) {
                    let i = choose|i: int| 0 <= i < q.len() && q[i] == m;
                    assert(p[i] == m);
                }
                times_zero(f(m));
            } else {
                assert(p.contains(j) == q.contains(j)) by {
                    if p.contains(j) {
                        let i = choose|i: int| 0 <= i < p.len() && p[i] == j;
                        assert(q[i] == j);
                    }
                    if q.contains(j) {
                        let i = choose|i: int| 0 <= i < q.len() && q[i] == j;
                        assert(p[i] == j);
                    }
                }
                plus_zero(rest(j));
            }
        }
        lemma_sum_pairs(0, n, rest, one, before);
        assert(p[p.len() - 1] == m);
        lemma_alone(n, m, f(m));
        let last = p.len() - 1;
        assert(part(last) == f(m));
        let own = plain_sum(last, part);
        let others = plain_sum(n, rest);
        assert(plain_sum(p.len() as int, part) == own.plus_spec(f(m)));
        plus_comm(others, f(m));
        plus_assoc(own, f(m), others);
    }
}

/// The two divisors of a row: that of the picks is positive and no more than that of all
/// experts, and the same where all experts are picked.
proof fn lemma_divisors<A: Scalar>(v: spec_fn(int) -> A, n: int, k: int)
    requires
        lossless::<A>(),
        goes_with_order::<A>(),
        plain_logits(v, n),
        0 < k <= n,
        k <= 32,
    ensures
        divisor(v, n, k, true) == plain_sum(k, |i: int| pick_exp(v, n, k, i)),
        positive(divisor(v, n, k, true)),
        at_most(divisor(v, n, k, true), divisor(v, n, k, false)),
        k == n ==> divisor(v, n, k, true) == divisor(v, n, k, false),
        forall|i: int| 0 <= i < k ==> nonnegative(#[trigger] pick_exp(v, n, k, i)),
{
    let p = picks(v, n, k);
    let f = row_exps(v, n);
    let part = |i: int| pick_exp(v, n, k, i);
    let rest = left_out(p, f);
    lemma_plain_picks(v, n, k);
    assert forall|j: int| 0 <= j < n implies nonnegative(#[trigger] f(j)) by {
        assert(v(j).above_spec(A::lowest_spec()));
        reveal(exponentials_grow);
    }
    assert forall|i: int| 0 <= i < k implies #[trigger] part(i) == f(p[i]) by {
        assert(strengths(v, n, k)[i] == v(p[i]));
    }
    assert forall|i: int| 0 <= i < k implies nonnegative(#[trigger] pick_exp(v, n, k, i)) by {
        assert(part(i) == f(p[i]));
        assert(nonnegative(f(p[i])));
    }
    assert forall|i: int| 0 <= i < k implies nonnegative(#[trigger] part(i)) by {
        assert(nonnegative(pick_exp(v, n, k, i)));
    }
    let own = plain_sum(k, part);
    lemma_first_lanes(k, part);
    law_reduction_is_plain_sum(32, n, 1, f);
    assert(n * 1 == n);
    lemma_parted(p, n, f, part);
    lemma_zero::<A>();
    assert forall|j: int| 0 <= j < n implies nonnegative(#[trigger] rest(j)) by {
        assert(nonnegative(f(j)));
    }
    lemma_sum_nonnegative(k, part);
    lemma_sum_nonnegative(n, rest);
    assert(at_most(own, own.plus_spec(plain_sum(n, rest)))) by {
        reveal(sums_grow);
    }
    if k == n {
        assert forall|j: int| 0 <= j < n implies #[trigger] rest(j) == whole::<A>(0) by {
            lemma_none_left(p, n, j);
        }
        lemma_sum_repeated(n, whole(0), rest);
        times_zero(whole::<A>(n));
        plus_zero(own);
    }
    assert(positive(part(0))) by {
        let top = strength(v, n);
        assert(picks(v, n, 0) =~= Seq::<int>::empty());
        assert(masked(v, picks(v, n, 0)) =~= v);
        assert(strengths(v, n, k)[0] == top);
        times_zero(top);
        reveal(exponentials_grow);
    }
    lemma_term_at_most_sum(k, part, 0);
    lemma_positive(part(0), own);
}

/// In exact arithmetic the weights over all experts sum to at most one.
pub proof fn law_raw_weights_sum_to_at_most_one<A: Scalar, T: Storage<A>>(
    logits: Seq<T>,
    n_experts: int,
    k: int,
    row: int,
)
    requires
        lossless::<A>(),
        divides::<A>(),
        keeps::<A, T>(),
        goes_with_order::<A>(),
        plain_logits(row_logits::<A, T>(logits, n_experts, row), n_experts),
        0 < k <= n_experts,
        k <= 32,
    ensures
        at_most(
            plain_sum(
                k,
                |i: int|
                    Storage::<A>::widen_spec(
                        (routed_weights::<A, T>(logits, n_experts, k, false))(row, i),
                    ),
            ),
            whole::<A>(1),
        ),
{
    let v = row_logits::<A, T>(logits, n_experts, row);
    let (own, all) = (divisor(v, n_experts, k, true), divisor(v, n_experts, k, false));
    let part = |i: int| pick_exp(v, n_experts, k, i);
    let weights = |i: int|
        Storage::<A>::widen_spec((routed_weights::<A, T>(logits, n_experts, k, false))(row, i));
    lemma_divisors(v, n_experts, k);
    lemma_positive(own, all);
    lemma_above(own, whole(0));
    lemma_finite(all);
    assert forall|i: int| 0 <= i < k implies #[trigger] weights(i) == part(i).over_spec(all) by {
        assert(rounded::<A, T>(part(i).over_spec(all)) == part(i).over_spec(all));
    }
    lemma_sum_quotient(all, k, part, weights);
    assert(at_most(own.over_spec(all), all.over_spec(all))) by {
        reveal(quotients_grow);
    }
    lemma_nonzero(all);
}

/// What is positive is not zero.
proof fn lemma_nonzero<A: Scalar>(a: A)
    requires
        goes_with_order::<A>(),
        positive(a),
    ensures
        a != whole::<A>(0),
{
    lemma_above(a, whole(0));
}

/// In exact arithmetic a weight over all experts is at most the normalised one, and the same
/// where all experts are picked.
pub proof fn law_normalising_never_shrinks<A: Scalar, T: Storage<A>>(
    logits: Seq<T>,
    n_experts: int,
    k: int,
    row: int,
    i: int,
)
    requires
        lossless::<A>(),
        keeps::<A, T>(),
        goes_with_order::<A>(),
        plain_logits(row_logits::<A, T>(logits, n_experts, row), n_experts),
        0 < k <= n_experts,
        k <= 32,
        0 <= i < k,
    ensures
        at_most(
            Storage::<A>::widen_spec((routed_weights::<A, T>(logits, n_experts, k, false))(row, i)),
            Storage::<A>::widen_spec((routed_weights::<A, T>(logits, n_experts, k, true))(row, i)),
        ),
        k == n_experts ==> (routed_weights::<A, T>(logits, n_experts, k, false))(row, i) == (
        routed_weights::<A, T>(logits, n_experts, k, true))(row, i),
{
    let v = row_logits::<A, T>(logits, n_experts, row);
    let (own, all) = (divisor(v, n_experts, k, true), divisor(v, n_experts, k, false));
    let e = pick_exp(v, n_experts, k, i);
    lemma_divisors(v, n_experts, k);
    assert(nonnegative(pick_exp(v, n_experts, k, i)));
    lemma_finite(e);
    lemma_finite(all);
    assert(at_most(e.over_spec(all), e.over_spec(own))) by {
        reveal(quotients_shrink);
    }
    assert(rounded::<A, T>(e.over_spec(all)) == e.over_spec(all));
    assert(rounded::<A, T>(e.over_spec(own)) == e.over_spec(own));
}

/// Weights do not rise along the list of picks, normalised or not.
pub proof fn law_weights_do_not_rise<A: Scalar, T: Storage<A>>(
    logits: Seq<T>,
    n_experts: int,
    k: int,
    normalise: bool,
    row: int,
    i: int,
)
    requires
        goes_with_order::<A>(),
        keeps_order::<A, T>(),
        plain_logits(row_logits::<A, T>(logits, n_experts, row), n_experts),
        k <= n_experts,
        0 <= i,
        i + 1 < k,
        finite(pick_exp(row_logits::<A, T>(logits, n_experts, row), n_experts, k, i)),
        positive(divisor(row_logits::<A, T>(logits, n_experts, row), n_experts, k, normalise)),
        finite(divisor(row_logits::<A, T>(logits, n_experts, row), n_experts, k, normalise)),
    ensures
        at_most(
            Storage::<A>::widen_spec(
                (routed_weights::<A, T>(logits, n_experts, k, normalise))(row, i + 1),
            ),
            Storage::<A>::widen_spec(
                (routed_weights::<A, T>(logits, n_experts, k, normalise))(row, i),
            ),
        ),
{
    let v = row_logits::<A, T>(logits, n_experts, row);
    let by = divisor(v, n_experts, k, normalise);
    let p = picks(v, n_experts, k);
    let top = strength(v, n_experts);
    lemma_plain_picks(v, n_experts, k);
    let (here, next) = (p[i], p[i + 1]);
    assert(strengths(v, n_experts, k)[i] == v(here));
    assert(strengths(v, n_experts, k)[i + 1] == v(next));
    assert(v(here).above_spec(A::lowest_spec()) && v(next).above_spec(A::lowest_spec()));
    lemma_picks(v, n_experts, k, i);
    if picks(v, n_experts, i).contains(next) {
        let j = choose|j: int| 0 <= j < i && picks(v, n_experts, i)[j] == next;
        assert(p.take(i)[j] == p[j]);
    }
    law_picks_descend(v, n_experts, k, i, next);
    lemma_above(v(here), A::lowest_spec());
    lemma_above(v(next), A::lowest_spec());
    let (a, b) = (v(next).minus_spec(top), v(here).minus_spec(top));
    assert(at_most(a, b)) by {
        reveal(differences_grow);
    }
    assert(at_most(a.exp_spec(), b.exp_spec()) && nonnegative(a.exp_spec())) by {
        reveal(exponentials_grow);
    }
    assert(pick_exp(v, n_experts, k, i + 1) == a.exp_spec());
    assert(pick_exp(v, n_experts, k, i) == b.exp_spec());
    assert(at_most(a.exp_spec().over_spec(by), b.exp_spec().over_spec(by))) by {
        reveal(quotients_grow);
    }
    assert(at_most(
        rounded::<A, T>(a.exp_spec().over_spec(by)),
        rounded::<A, T>(b.exp_spec().over_spec(by)),
    ));
}

/// The weights of a row, as they are read back.
pub open spec fn row_weights<A: Scalar, T: Storage<A>>(
    logits: Seq<T>,
    n_experts: int,
    k: int,
    normalise: bool,
    row: int,
) -> spec_fn(int) -> A {
    |i: int|
        Storage::<A>::widen_spec(
            (routed_weights::<A, T>(logits, n_experts, k, normalise))(row, i),
        )
}

/// In exact arithmetic, over the same picks: normalised weights sum to one, weights over all
/// experts to at most one; none of these exceeds its normalised one, and they are the same
/// where all experts are picked; neither kind rises along the list.
pub proof fn law_weights_of_a_row<A: Scalar, T: Storage<A>>(
    logits: Seq<T>,
    n_experts: int,
    k: int,
    row: int,
)
    requires
        lossless::<A>(),
        divides::<A>(),
        keeps::<A, T>(),
        goes_with_order::<A>(),
        plain_logits(row_logits::<A, T>(logits, n_experts, row), n_experts),
        0 < k <= n_experts,
        k <= 32,
    ensures
        ({
            let raw = row_weights::<A, T>(logits, n_experts, k, false, row);
            let own = row_weights::<A, T>(logits, n_experts, k, true, row);
            &&& plain_sum(k, own) == whole::<A>(1)
            &&& at_most(plain_sum(k, raw), whole::<A>(1))
            &&& forall|i: int| 0 <= i < k ==> at_most(#[trigger] raw(i), own(i))
            &&& k == n_experts ==> forall|i: int| 0 <= i < k ==> #[trigger] raw(i) == own(i)
            &&& forall|i: int| 0 <= i && i + 1 < k ==> at_most(raw(i + 1), #[trigger] raw(i))
            &&& forall|i: int| 0 <= i && i + 1 < k ==> at_most(own(i + 1), #[trigger] own(i))
        }),
{
    let raw = row_weights::<A, T>(logits, n_experts, k, false, row);
    let own = row_weights::<A, T>(logits, n_experts, k, true, row);
    let v = row_logits::<A, T>(logits, n_experts, row);
    let (part, all) = (divisor(v, n_experts, k, true), divisor(v, n_experts, k, false));
    lemma_divisors(v, n_experts, k);
    lemma_positive(part, all);
    lemma_nonzero(part);
    lemma_finite(part);
    lemma_finite(all);
    law_normalised_weights_sum_to_one::<A, T>(logits, n_experts, k, row);
    law_raw_weights_sum_to_at_most_one::<A, T>(logits, n_experts, k, row);
    lemma_sum_same(
        whole(0),
        0,
        k,
        own,
        |i: int|
            Storage::<A>::widen_spec((routed_weights::<A, T>(logits, n_experts, k, true))(row, i)),
    );
    lemma_sum_same(
        whole(0),
        0,
        k,
        raw,
        |i: int|
            Storage::<A>::widen_spec((routed_weights::<A, T>(logits, n_experts, k, false))(row, i)),
    );
    assert forall|i: int| 0 <= i < k implies at_most(#[trigger] raw(i), own(i)) && (k == n_experts
        ==> raw(i) == own(i)) by {
        law_normalising_never_shrinks::<A, T>(logits, n_experts, k, row, i);
    }
    assert forall|a: A, b: A| at_most(a, b) implies at_most(
        #[trigger] rounded::<A, T>(a),
        #[trigger] rounded::<A, T>(b),
    ) by {
        assert(rounded::<A, T>(a) == a && rounded::<A, T>(b) == b);
    }
    assert forall|i: int| 0 <= i && i + 1 < k implies at_most(raw(i + 1), #[trigger] raw(i)) by {
        lemma_finite(pick_exp(v, n_experts, k, i));
        law_weights_do_not_rise::<A, T>(logits, n_experts, k, false, row, i);
    }
    assert forall|i: int| 0 <= i && i + 1 < k implies at_most(own(i + 1), #[trigger] own(i)) by {
        lemma_finite(pick_exp(v, n_experts, k, i));
        law_weights_do_not_rise::<A, T>(logits, n_experts, k, true, row, i);
    }
}

/// The list `ids` names `k` different candidates of `n`, the strongest first: no candidate that
/// is not yet named is above the next one named, and of equal ones the first goes first.
pub open spec fn strongest_first<A: Scalar>(
    v: spec_fn(int) -> A,
    n: int,
    k: int,
    ids: spec_fn(int) -> int,
) -> bool {
    &&& forall|i: int| 0 <= i < k ==> 0 <= #[trigger] ids(i) < n
    &&& forall|i: int, j: int| 0 <= i < j < k ==> #[trigger] ids(i) != #[trigger] ids(j)
    &&& forall|i: int, e: int|
        0 <= i < k && 0 <= e < n && (forall|j: int| 0 <= j < i ==> #[trigger] ids(j) != e) ==> {
            &&& !(#[trigger] v(e)).above_spec(v(#[trigger] ids(i)))
            &&& v(e).equals_spec(v(ids(i))) ==> ids(i) <= e
        }
}

/// Picks among enough candidates above the lowest number are the strongest first.
proof fn lemma_strongest_first<A: Scalar>(
    v: spec_fn(int) -> A,
    n: int,
    k: int,
    ids: spec_fn(int) -> int,
    some: Seq<int>,
)
    requires
        ordered::<A>(),
        enough_high(v, n, k, some),
        0 <= k <= n,
        forall|i: int| 0 <= i < k ==> #[trigger] ids(i) == picks(v, n, k)[i],
    ensures
        strongest_first(v, n, k, ids),
        k > 0 ==> strength(v, n) == v(ids(0)),
        forall|i: int| 0 <= i < k ==> strengths(v, n, k)[i] == v(#[trigger] ids(i)),
{
    let p = picks(v, n, k);
    lemma_high_picks(v, n, k, some);
    let rank = choose|rank: spec_fn(A) -> Option<real>| #[trigger] ranks(rank);
    assert forall|i: int, e: int|
        0 <= i < k && 0 <= e < n && (forall|j: int| 0 <= j < i ==> #[trigger] ids(j)
            != e) implies {
        &&& !(#[trigger] v(e)).above_spec(v(#[trigger] ids(i)))
        &&& v(e).equals_spec(v(ids(i))) ==> ids(i) <= e
    } by {
        lemma_picks(v, n, k, i);
        let before = picks(v, n, i);
        if before.contains(e) {
            let j = choose|j: int| 0 <= j < before.len() && before[j] == e;
            assert(p.take(i)[j] == p[j]);
            assert(ids(j) == p[j]);
        }
        assert(ids(i) == p[i]);
        assert(v(p[i]).above_spec(A::lowest_spec()));
        if v(e).above_spec(A::lowest_spec()) {
            law_picks_descend(v, n, k, i, e);
        } else {
            assert(!A::lowest_spec().above_spec(v(e)));
        }
    }
    assert forall|i: int, j: int| 0 <= i < j < k implies #[trigger] ids(i) != #[trigger] ids(j) by {
        assert(p[i] != p[j]);
    }
    if k > 0 {
        assert(picks(v, n, 0) =~= Seq::<int>::empty());
        assert(masked(v, picks(v, n, 0)) =~= v);
        assert(strengths(v, n, k)[0] == strength(v, n));
        assert(ids(0) == p[0]);
    }
}

/// In exact arithmetic, in a row with enough logits above the lowest number, the router names
/// the strongest experts first, and weighs each by the exponential of its logit, taken from
/// the first one's, over the sum of these exponentials: over the named experts where weights
/// are normalised, over all where not.
#[allow(clippy::too_many_arguments)]
pub proof fn law_router<A: Scalar, T: Storage<A>>(
    logits: Seq<T>,
    ids0: Seq<u32>,
    ids: Seq<u32>,
    weights0: Seq<T>,
    weights: Seq<T>,
    n_experts: int,
    k: int,
    normalise: bool,
    n_rows: int,
    row: int,
    v: spec_fn(int) -> A,
    id: spec_fn(int) -> int,
    some: Seq<int>,
)
    requires
        lossless::<A>(),
        ordered::<A>(),
        filled2(ids0, ids, n_rows, k, routed::<A, T>(logits, n_experts, k)),
        filled2(
            weights0,
            weights,
            n_rows,
            k,
            routed_weights::<A, T>(logits, n_experts, k, normalise),
        ),
        0 < k <= n_experts <= u32::MAX,
        k <= 32,
        0 <= row < n_rows,
        holds_values::<A, T>(logits, row * n_experts, n_experts, v),
        enough_high(v, n_experts, k, some),
        forall|i: int| 0 <= i < k ==> #[trigger] id(i) == ids[row * k + i],
    ensures
        strongest_first(v, n_experts, k, id),
        ({
            let e = |j: int| v(j).minus_spec(v(id(0))).exp_spec();
            let by = if normalise {
                plain_sum(k, |i: int| e(id(i)))
            } else {
                plain_sum(n_experts, e)
            };
            forall|i: int|
                0 <= i < k ==> weights[row * k + i] == T::narrow_spec(
                    e(#[trigger] id(i)).over_spec(by),
                )
        }),
{
    let own = row_logits::<A, T>(logits, n_experts, row);
    let same = |j: int|
        if 0 <= j < n_experts {
            v(j)
        } else {
            own(j)
        };
    assert forall|j: int| #[trigger] own(j) == same(j) by {
        if 0 <= j < n_experts {
            assert(Storage::<A>::widen_spec(logits[row * n_experts + j]) == v(j));
        }
    }
    assert(own =~= same);
    let p = picks(own, n_experts, k);
    assert(enough_high(own, n_experts, k, some)) by {
        assert forall|i: int| 0 <= i < k implies 0 <= #[trigger] some[i] < n_experts && own(
            some[i],
        ).above_spec(A::lowest_spec()) by {
            assert(own(some[i]) == same(some[i]));
        }
    }
    lemma_high_picks(own, n_experts, k, some);
    assert forall|i: int| 0 <= i < k implies #[trigger] id(i) == p[i] by {
        assert(cell(ids, k, row, i) == (routed::<A, T>(logits, n_experts, k))(row, i));
        assert(0 <= p[i] < n_experts);
    }
    lemma_strongest_first(own, n_experts, k, id, some);
    assert forall|i: int, e: int|
        0 <= i < k && 0 <= e < n_experts && (forall|j: int| 0 <= j < i ==> #[trigger] id(j)
            != e) implies {
        &&& !(#[trigger] v(e)).above_spec(v(#[trigger] id(i)))
        &&& v(e).equals_spec(v(id(i))) ==> id(i) <= e
    } by {
        assert(own(e) == v(e) && own(id(i)) == v(id(i)));
        assert(!own(e).above_spec(own(id(i))));
    }
    assert(0 <= id(0) < n_experts);
    let top = strength(own, n_experts);
    assert(top == v(id(0)));
    let e = |j: int| v(j).minus_spec(v(id(0))).exp_spec();
    let part = |i: int| pick_exp(own, n_experts, k, i);
    let named = |i: int| e(id(i));
    assert forall|i: int| 0 <= i < k implies #[trigger] part(i) == named(i) by {
        assert(strengths(own, n_experts, k)[i] == own(id(i)));
        assert(0 <= id(i) < n_experts);
    }
    lemma_sum_same(whole(0), 0, k, part, named);
    lemma_first_lanes(k, part);
    let all = row_exps(own, n_experts);
    law_reduction_is_plain_sum(32, n_experts, 1, all);
    assert(n_experts * 1 == n_experts);
    assert forall|j: int| 0 <= j < n_experts implies #[trigger] all(j) == e(j) by {
        assert(own(j) == v(j));
    }
    lemma_sum_same(whole(0), 0, n_experts, all, e);
    assert forall|i: int| 0 <= i < k implies weights[row * k + i] == T::narrow_spec(
        e(#[trigger] id(i)).over_spec(
            if normalise {
                plain_sum(k, named)
            } else {
                plain_sum(n_experts, e)
            },
        ),
    ) by {
        assert(part(i) == named(i));
        assert(cell(weights, k, row, i) == (routed_weights::<A, T>(
            logits,
            n_experts,
            k,
            normalise,
        ))(row, i));
    }
}

/// In exact arithmetic the biased router names first the experts of a row whose rounded score,
/// biased and rounded again, is strongest, and weighs each by its unbiased score over the
/// named experts' sum of these. A score is one over one and the exponential of the negative
/// logit.
#[allow(clippy::too_many_arguments)]
pub proof fn law_biased_router<A: Scalar, T: Storage<A>>(
    logits: Seq<T>,
    bias: Seq<T>,
    ids0: Seq<u32>,
    ids: Seq<u32>,
    weights0: Seq<T>,
    weights: Seq<T>,
    n_experts: int,
    k: int,
    n_rows: int,
    row: int,
    v: spec_fn(int) -> A,
    b: spec_fn(int) -> A,
    id: spec_fn(int) -> int,
    some: Seq<int>,
)
    requires
        lossless::<A>(),
        ordered::<A>(),
        filled2(ids0, ids, n_rows, k, routed_biased::<A, T>(logits, bias, n_experts, k)),
        filled2(
            weights0,
            weights,
            n_rows,
            k,
            routed_biased_weights::<A, T>(logits, bias, n_experts, k),
        ),
        0 < k <= n_experts <= u32::MAX,
        k <= 32,
        0 <= row < n_rows,
        holds_values::<A, T>(logits, row * n_experts, n_experts, v),
        holds_values::<A, T>(bias, 0, n_experts, b),
        ({
            let one: A = whole(1);
            let score = |j: int|
                rounded::<A, T>(
                    one.over_spec(one.plus_spec(whole::<A>(0).minus_spec(v(j)).exp_spec())),
                );
            enough_high(
                |j: int| rounded::<A, T>(score(j).plus_spec(b(j))),
                n_experts,
                k,
                some,
            )
        }),
        forall|i: int| 0 <= i < k ==> #[trigger] id(i) == ids[row * k + i],
    ensures
        ({
            let one: A = whole(1);
            let score = |j: int|
                rounded::<A, T>(
                    one.over_spec(one.plus_spec(whole::<A>(0).minus_spec(v(j)).exp_spec())),
                );
            let biased = |j: int| rounded::<A, T>(score(j).plus_spec(b(j)));
            &&& strongest_first(biased, n_experts, k, id)
            &&& forall|i: int|
                0 <= i < k ==> weights[row * k + i] == T::narrow_spec(
                    score(#[trigger] id(i)).over_spec(plain_sum(k, |j: int| score(id(j)))),
                )
        }),
{
    let one: A = whole(1);
    let score = |j: int|
        rounded::<A, T>(one.over_spec(one.plus_spec(whole::<A>(0).minus_spec(v(j)).exp_spec())));
    let biased = |j: int| rounded::<A, T>(score(j).plus_spec(b(j)));
    let own = biased_row::<A, T>(logits, bias, n_experts, row);
    assert forall|j: int| 0 <= j < n_experts implies #[trigger] own(j) == biased(j)
        && Storage::<A>::widen_spec(unbiased_score::<A, T>(logits, n_experts, row, j)) == score(
        j,
    ) by {
        assert(Storage::<A>::widen_spec(logits[row * n_experts + j]) == v(j));
        assert(Storage::<A>::widen_spec(bias[0 + j]) == b(j));
    }
    assert(enough_high(biased, n_experts, k, some));
    assert(enough_high(own, n_experts, k, some)) by {
        assert forall|i: int| 0 <= i < k implies 0 <= #[trigger] some[i] < n_experts && own(
            some[i],
        ).above_spec(A::lowest_spec()) by {
            assert(own(some[i]) == biased(some[i]));
        }
    }
    let p = picks(own, n_experts, k);
    lemma_high_picks(own, n_experts, k, some);
    assert forall|i: int| 0 <= i < k implies #[trigger] id(i) == p[i] by {
        assert(cell(ids, k, row, i) == (routed_biased::<A, T>(logits, bias, n_experts, k))(
            row,
            i,
        ));
        assert(0 <= p[i] < n_experts);
    }
    lemma_strongest_first(own, n_experts, k, id, some);
    assert forall|i: int, e: int|
        0 <= i < k && 0 <= e < n_experts && (forall|j: int| 0 <= j < i ==> #[trigger] id(j)
            != e) implies {
        &&& !(#[trigger] biased(e)).above_spec(biased(#[trigger] id(i)))
        &&& biased(e).equals_spec(biased(id(i))) ==> id(i) <= e
    } by {
        assert(own(e) == biased(e) && own(id(i)) == biased(id(i)));
        assert(!own(e).above_spec(own(id(i))));
    }
    let scores = picked_scores::<A, T>(logits, bias, n_experts, k, row);
    let named = |j: int| score(id(j));
    assert forall|i: int| 0 <= i < k implies #[trigger] scores(i) == named(i) by {
        assert(id(i) == p[i]);
        assert(own(id(i)) == biased(id(i)));
    }
    lemma_sum_same(whole(0), 0, k, scores, named);
    lemma_first_lanes(k, scores);
    assert forall|i: int| 0 <= i < k implies weights[row * k + i] == T::narrow_spec(
        score(#[trigger] id(i)).over_spec(plain_sum(k, named)),
    ) by {
        assert(scores(i) == named(i));
        assert(cell(weights, k, row, i) == (routed_biased_weights::<A, T>(
            logits,
            bias,
            n_experts,
            k,
        ))(row, i));
    }
}

/// A candidate above the lowest number is left that the first `i` of the list do not name.
pub open spec fn some_left<A: Scalar>(
    v: spec_fn(int) -> A,
    n: int,
    ids: spec_fn(int) -> int,
    i: int,
) -> bool {
    exists|e: int|
        0 <= e < n && (#[trigger] v(e)).above_spec(A::lowest_spec()) && (forall|j: int|
            0 <= j < i ==> #[trigger] ids(j) != e)
}

/// The value that stands for the `i`-th of the list: that of its candidate as long as some are
/// left, then the lowest number.
pub open spec fn standing<A: Scalar>(
    v: spec_fn(int) -> A,
    n: int,
    ids: spec_fn(int) -> int,
    i: int,
) -> A {
    if some_left(v, n, ids, i) {
        v(ids(i))
    } else {
        A::lowest_spec()
    }
}

/// As long as candidates above the lowest number are left, the list names the first of the
/// strongest of them; then it names candidate 0.
pub open spec fn strongest_left_first<A: Scalar>(
    v: spec_fn(int) -> A,
    n: int,
    k: int,
    ids: spec_fn(int) -> int,
) -> bool {
    &&& forall|i: int|
        0 <= i < k && some_left(v, n, ids, i) ==> 0 <= #[trigger] ids(i) < n && v(
            ids(i),
        ).above_spec(A::lowest_spec())
    &&& forall|i: int, j: int|
        0 <= j < i < k && some_left(v, n, ids, i) ==> #[trigger] ids(i) != #[trigger] ids(j)
    &&& forall|i: int, e: int|
        0 <= i < k && 0 <= e < n && v(e).above_spec(A::lowest_spec()) && (forall|j: int|
            0 <= j < i ==> #[trigger] ids(j) != e) ==> {
            &&& !(#[trigger] v(e)).above_spec(v(#[trigger] ids(i)))
            &&& v(e).equals_spec(v(ids(i))) ==> ids(i) <= e
        }
    &&& forall|i: int| 0 <= i < k && !some_left(v, n, ids, i) ==> #[trigger] ids(i) == 0
}

/// Picks are the strongest left first, and their strengths the values that stand for them.
proof fn lemma_strongest_left<A: Scalar>(
    v: spec_fn(int) -> A,
    n: int,
    k: int,
    ids: spec_fn(int) -> int,
)
    requires
        ordered::<A>(),
        0 <= k,
        forall|i: int| 0 <= i < k ==> #[trigger] ids(i) == picks(v, n, k)[i],
    ensures
        strongest_left_first(v, n, k, ids),
        forall|i: int| 0 <= i < k ==> strengths(v, n, k)[i] == #[trigger] standing(v, n, ids, i),
        k > 0 ==> strength(v, n) == standing(v, n, ids, 0),
{
    let p = picks(v, n, k);
    lemma_picks(v, n, k, k);
    assert forall|i: int, e: int| 0 <= i < k implies (#[trigger] picks(v, n, i).contains(e)
        <==> exists|j: int| 0 <= j < i && #[trigger] ids(j) == e) by {
        lemma_picks(v, n, k, i);
        lemma_picks(v, n, i, i);
        let before = picks(v, n, i);
        if before.contains(e) {
            let j = choose|j: int| 0 <= j < before.len() && before[j] == e;
            assert(p.take(i)[j] == p[j]);
            assert(ids(j) == e);
        }
        if exists|j: int| 0 <= j < i && #[trigger] ids(j) == e {
            let j = choose|j: int| 0 <= j < i && #[trigger] ids(j) == e;
            assert(p.take(i)[j] == p[j]);
            assert(before[j] == e);
        }
    }
    assert forall|i: int, e: int|
        0 <= i < k && 0 <= e < n && v(e).above_spec(A::lowest_spec()) && (forall|j: int|
            0 <= j < i ==> #[trigger] ids(j) != e) implies {
        &&& !(#[trigger] v(e)).above_spec(v(#[trigger] ids(i)))
        &&& v(e).equals_spec(v(ids(i))) ==> ids(i) <= e
    } by {
        assert(!picks(v, n, i).contains(e));
        law_picks_descend(v, n, k, i, e);
    }
    assert forall|i: int| 0 <= i < k implies (if some_left(v, n, ids, i) {
        &&& 0 <= #[trigger] ids(i) < n
        &&& v(ids(i)).above_spec(A::lowest_spec())
        &&& !picks(v, n, i).contains(ids(i))
        &&& strengths(v, n, k)[i] == v(ids(i))
    } else {
        ids(i) == 0 && strengths(v, n, k)[i] == A::lowest_spec()
    }) by {
        if some_left(v, n, ids, i) {
            let e = choose|e: int|
                0 <= e < n && (#[trigger] v(e)).above_spec(A::lowest_spec()) && (forall|j: int|
                    0 <= j < i ==> #[trigger] ids(j) != e);
            assert(!picks(v, n, i).contains(e));
            law_picks_descend(v, n, k, i, e);
        } else {
            assert forall|e: int|
                0 <= e < n && !picks(v, n, i).contains(e) implies !(#[trigger] v(e)).above_spec(
                A::lowest_spec(),
            ) by {
                if v(e).above_spec(A::lowest_spec()) {
                    assert(forall|j: int| 0 <= j < i ==> #[trigger] ids(j) != e);
                }
            }
            law_nothing_left(v, n, k, i);
        }
    }
    assert forall|i: int| 0 <= i < k implies strengths(v, n, k)[i] == #[trigger] standing(
        v,
        n,
        ids,
        i,
    ) by {
        assert(ids(i) == p[i]);
    }
    assert forall|i: int, j: int|
        0 <= j < i < k && some_left(v, n, ids, i) implies #[trigger] ids(i) != #[trigger] ids(
        j,
    ) by {
        assert(!picks(v, n, i).contains(ids(i)));
    }
    if k > 0 {
        assert(picks(v, n, 0) =~= Seq::<int>::empty());
        assert(masked(v, picks(v, n, 0)) =~= v);
        assert(strengths(v, n, k)[0] == strength(v, n));
        assert(strengths(v, n, k)[0] == standing(v, n, ids, 0));
    }
}

/// In exact arithmetic, whatever the logits of a row, the router names the strongest experts
/// left first, and weighs each by the exponential of the value that stands for it, taken from
/// the first one's, over the sum of these exponentials: over the list where weights are
/// normalised, over the logits of all experts where not.
#[allow(clippy::too_many_arguments)]
pub proof fn law_router_of_any_row<A: Scalar, T: Storage<A>>(
    logits: Seq<T>,
    ids0: Seq<u32>,
    ids: Seq<u32>,
    weights0: Seq<T>,
    weights: Seq<T>,
    n_experts: int,
    k: int,
    normalise: bool,
    n_rows: int,
    row: int,
    id: spec_fn(int) -> int,
)
    requires
        lossless::<A>(),
        ordered::<A>(),
        filled2(ids0, ids, n_rows, k, routed::<A, T>(logits, n_experts, k)),
        filled2(
            weights0,
            weights,
            n_rows,
            k,
            routed_weights::<A, T>(logits, n_experts, k, normalise),
        ),
        0 < k <= 32,
        0 <= n_experts <= u32::MAX,
        0 <= row < n_rows,
        forall|i: int| 0 <= i < k ==> #[trigger] id(i) == ids[row * k + i],
    ensures
        ({
            let v = |j: int| Storage::<A>::widen_spec(logits[row * n_experts + j]);
            let top = standing(v, n_experts, id, 0);
            let e = |i: int| standing(v, n_experts, id, i).minus_spec(top).exp_spec();
            let by = if normalise {
                plain_sum(k, e)
            } else {
                plain_sum(n_experts, |j: int| v(j).minus_spec(top).exp_spec())
            };
            &&& strongest_left_first(v, n_experts, k, id)
            &&& forall|i: int|
                0 <= i < k ==> #[trigger] weights[row * k + i] == T::narrow_spec(
                    e(i).over_spec(by),
                )
        }),
{
    let v = |j: int| Storage::<A>::widen_spec(logits[row * n_experts + j]);
    let own = row_logits::<A, T>(logits, n_experts, row);
    assert(own =~= v);
    let p = picks(v, n_experts, k);
    lemma_picks(v, n_experts, k, k);
    assert forall|i: int| 0 <= i < k implies #[trigger] id(i) == p[i] by {
        assert(cell(ids, k, row, i) == (routed::<A, T>(logits, n_experts, k))(row, i));
        assert(0 <= p[i]);
        if n_experts == 0 {
            law_nothing_left(v, n_experts, k, i);
        }
    }
    lemma_strongest_left(v, n_experts, k, id);
    let top = standing(v, n_experts, id, 0);
    let e = |i: int| standing(v, n_experts, id, i).minus_spec(top).exp_spec();
    let part = |i: int| pick_exp(v, n_experts, k, i);
    assert forall|i: int| 0 <= i < k implies #[trigger] part(i) == e(i) by {
        assert(strengths(v, n_experts, k)[i] == standing(v, n_experts, id, i));
    }
    lemma_sum_same(whole(0), 0, k, part, e);
    lemma_first_lanes(k, part);
    let all = row_exps(v, n_experts);
    let plain = |j: int| v(j).minus_spec(top).exp_spec();
    law_reduction_is_plain_sum(32, n_experts, 1, all);
    assert(n_experts * 1 == n_experts);
    lemma_sum_same(whole(0), 0, n_experts, all, plain);
    assert forall|i: int| 0 <= i < k implies #[trigger] weights[row * k + i] == T::narrow_spec(
        e(i).over_spec(
            if normalise {
                plain_sum(k, e)
            } else {
                plain_sum(n_experts, plain)
            },
        ),
    ) by {
        assert(part(i) == e(i));
        assert(cell(weights, k, row, i) == (routed_weights::<A, T>(
            logits,
            n_experts,
            k,
            normalise,
        ))(row, i));
    }
}

/// In exact arithmetic, whatever the scores of a row, the biased router names the experts with
/// the strongest biased scores left first, and weighs each by its unbiased score over the
/// list's sum of these.
#[allow(clippy::too_many_arguments)]
pub proof fn law_biased_router_of_any_row<A: Scalar, T: Storage<A>>(
    logits: Seq<T>,
    bias: Seq<T>,
    ids0: Seq<u32>,
    ids: Seq<u32>,
    weights0: Seq<T>,
    weights: Seq<T>,
    n_experts: int,
    k: int,
    n_rows: int,
    row: int,
    id: spec_fn(int) -> int,
)
    requires
        lossless::<A>(),
        ordered::<A>(),
        filled2(ids0, ids, n_rows, k, routed_biased::<A, T>(logits, bias, n_experts, k)),
        filled2(
            weights0,
            weights,
            n_rows,
            k,
            routed_biased_weights::<A, T>(logits, bias, n_experts, k),
        ),
        0 < k <= 32,
        0 < n_experts <= u32::MAX,
        0 <= row < n_rows,
        forall|i: int| 0 <= i < k ==> #[trigger] id(i) == ids[row * k + i],
    ensures
        ({
            let one: A = whole(1);
            let score = |j: int|
                rounded::<A, T>(
                    one.over_spec(
                        one.plus_spec(
                            whole::<A>(0).minus_spec(
                                logits[row * n_experts + j].widen_spec(),
                            ).exp_spec(),
                        ),
                    ),
                );
            let biased = |j: int| rounded::<A, T>(score(j).plus_spec(bias[j].widen_spec()));
            &&& strongest_left_first(biased, n_experts, k, id)
            &&& forall|i: int|
                0 <= i < k ==> #[trigger] weights[row * k + i] == T::narrow_spec(
                    score(id(i)).over_spec(plain_sum(k, |j: int| score(id(j)))),
                )
        }),
{
    let one: A = whole(1);
    let score = |j: int|
        rounded::<A, T>(
            one.over_spec(
                one.plus_spec(
                    whole::<A>(0).minus_spec(logits[row * n_experts + j].widen_spec()).exp_spec(),
                ),
            ),
        );
    let biased = |j: int| rounded::<A, T>(score(j).plus_spec(bias[j].widen_spec()));
    let own = biased_row::<A, T>(logits, bias, n_experts, row);
    assert forall|j: int| #[trigger] own(j) == biased(j) by {
        assert(Storage::<A>::widen_spec(unbiased_score::<A, T>(logits, n_experts, row, j))
            == score(j));
    }
    assert(own =~= biased);
    let p = picks(biased, n_experts, k);
    lemma_picks(biased, n_experts, k, k);
    assert forall|i: int| 0 <= i < k implies #[trigger] id(i) == p[i] by {
        assert(cell(ids, k, row, i) == (routed_biased::<A, T>(logits, bias, n_experts, k))(
            row,
            i,
        ));
        assert(0 <= p[i] < n_experts);
    }
    lemma_strongest_left(biased, n_experts, k, id);
    let scores = picked_scores::<A, T>(logits, bias, n_experts, k, row);
    let named = |j: int| score(id(j));
    assert forall|i: int| 0 <= i < k implies #[trigger] scores(i) == named(i) by {
        assert(id(i) == p[i]);
    }
    lemma_sum_same(whole(0), 0, k, scores, named);
    lemma_first_lanes(k, scores);
    assert forall|i: int| 0 <= i < k implies #[trigger] weights[row * k + i] == T::narrow_spec(
        score(id(i)).over_spec(plain_sum(k, named)),
    ) by {
        assert(scores(i) == named(i));
        assert(cell(weights, k, row, i) == (routed_biased_weights::<A, T>(
            logits,
            bias,
            n_experts,
            k,
        ))(row, i));
    }
}

} // verus!
