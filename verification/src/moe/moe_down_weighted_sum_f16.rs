//! Down projection of six routed experts and their weighted accumulation:
//! `accum[r] += sum_k w[k] * (down_k[r] . inner_k)`, in one dispatch.
use crate::exact::{
    elements, keeps, law_reduction_is_plain_sum, lemma_lanes_sum, lemma_sum_padded,
    lemma_sum_same, lemma_sum_shift, lemma_sum_start, lemma_units, lossless, plain_sum, unit_sums,
};
use crate::scalar::{
    lane_sums, round, rounded, run_lanes, sum_from, whole, LaneWork, Scalar, Storage,
};
use crate::tensor::{cell, filled, read};
use vstd::prelude::*;

verus! {

/// The products of one expert's row with its activation.
pub open spec fn slot_terms<A: Scalar, T: Storage<A>>(
    down: Seq<T>,
    inner: Seq<T>,
    k: int,
    row: int,
) -> spec_fn(int) -> A {
    |d: int| cell(down, k, row, d).widen_spec().times_spec(inner[d].widen_spec())
}

/// The sum of `parts` taken simdgroup by simdgroup: each 32 lanes first, then the
/// simdgroups' sums padded to one simdgroup with zeros.
pub open spec fn two_level_sum<A: Scalar>(parts: Seq<A>) -> A {
    A::lanes_sum_spec(
        Seq::new(
            32,
            |l: int|
                if l < parts.len() / 32 {
                    A::lanes_sum_spec(parts.subrange(l * 32, l * 32 + 32))
                } else {
                    whole(0)
                },
        ),
    )
}

/// One expert's dot product for row `row`.
pub open spec fn slot_dot<A: Scalar, T: Storage<A>>(
    down: Seq<T>,
    inner: Seq<T>,
    k: int,
    row: int,
    lanes: int,
) -> A {
    two_level_sum(lane_sums(lanes, k, 1, slot_terms::<A, T>(down, inner, k, row)))
}

/// One expert folded into the accumulator, rounded after every operation.
pub open spec fn folded<A: Scalar, T: Storage<A>>(acc: A, weight: A, dot: A) -> A {
    rounded::<A, T>(
        acc.plus_spec(rounded::<A, T>(weight.times_spec(rounded::<A, T>(dot)))),
    )
}

struct SlotRow<'a, A, T> {
    down: &'a [T],
    staged: &'a Vec<A>,
    inner: Ghost<Seq<T>>,
    k: usize,
    row: usize,
    rows: Ghost<int>,
}

impl<'a, A: Scalar, T: Storage<A>> LaneWork<A> for SlotRow<'a, A, T> {
    closed spec fn ready(&self) -> bool {
        &&& self.rows@ * self.k <= self.down@.len()
        &&& self.row < self.rows@
        &&& self.staged@.len() == self.k
        &&& forall|d: int|
            0 <= d < self.k ==> #[trigger] self.staged@[d] == self.inner@[d].widen_spec()
    }

    closed spec fn units(&self) -> int {
        self.k as int
    }

    closed spec fn unit(&self) -> int {
        1
    }

    closed spec fn terms(&self) -> spec_fn(int) -> A {
        slot_terms::<A, T>(self.down@, self.inner@, self.k as int, self.row as int)
    }

    fn accumulate(&self, acc: A, u: usize) -> (r: A) {
        let w: A = read(self.down, self.rows, self.k, self.row, u).widen();
        proof {
            reveal_with_fuel(sum_from, 2);
        }
        acc.plus(w.times(self.staged[u]))
    }
}

/// Sums one partial per lane in two levels.
fn sum_two_levels<A: Scalar>(parts: &Vec<A>) -> (r: A)
    requires
        parts@.len() % 32 == 0,
        parts@.len() <= 256,
    ensures
        r == two_level_sum(parts@),
{
    let n_simd: usize = parts.len() / 32;
    let mut sgs: Vec<A> = Vec::new();
    let mut sg: usize = 0;
    while sg < 32
        invariant
            parts@.len() % 32 == 0,
            parts@.len() <= 256,
            n_simd == parts@.len() / 32,
            sg <= 32,
            sgs@.len() == sg,
            forall|l: int|
                0 <= l < sg ==> #[trigger] sgs@[l] == (if l < parts@.len() / 32 {
                    A::lanes_sum_spec(parts@.subrange(l * 32, l * 32 + 32))
                } else {
                    whole(0)
                }),
        decreases 32 - sg,
    {
        if sg < n_simd {
            let mut group: Vec<A> = Vec::new();
            let mut lane: usize = 0;
            while lane < 32
                invariant
                    parts@.len() % 32 == 0,
                    parts@.len() <= 256,
                    n_simd == parts@.len() / 32,
                    sg < n_simd,
                    lane <= 32,
                    group@ == parts@.subrange(sg * 32, sg * 32 + lane),
                decreases 32 - lane,
            {
                group.push(parts[sg * 32 + lane]);
                lane = lane + 1;
            }
            sgs.push(A::lanes_sum(&group));
        } else {
            sgs.push(A::dyadic(0, 0));
        }
        sg = sg + 1;
    }
    assert(sgs@ =~= Seq::new(
        32,
        |l: int|
            if l < parts@.len() / 32 {
                A::lanes_sum_spec(parts@.subrange(l * 32, l * 32 + 32))
            } else {
                whole(0)
            },
    ));
    A::lanes_sum(&sgs)
}

/// Stages one expert's activation and computes its dot product for row `row`.
fn dot_slot<A: Scalar, T: Storage<A>>(
    down: &[T],
    inner: &[T],
    k: usize,
    row: usize,
    lanes: usize,
    rows: Ghost<int>,
) -> (r: A)
    requires
        rows@ * k <= down@.len(),
        row < rows@,
        k <= inner@.len(),
        k <= 2048,
        lanes % 32 == 0,
        0 < lanes <= 256,
    ensures
        r == slot_dot::<A, T>(down@, inner@, k as int, row as int, lanes as int),
{
    let mut staged: Vec<A> = Vec::new();
    let mut d: usize = 0;
    while d < k
        invariant
            k <= inner@.len(),
            d <= k,
            staged@.len() == d,
            forall|i: int| 0 <= i < d ==> #[trigger] staged@[i] == inner@[i].widen_spec(),
        decreases k - d,
    {
        staged.push(inner[d].widen());
        d = d + 1;
    }
    let work = SlotRow { down, staged: &staged, inner: Ghost(inner@), k, row, rows };
    let parts: Vec<A> = run_lanes(&work, k, lanes);
    sum_two_levels(&parts)
}

/// The value that row `row` accumulates to.
#[allow(clippy::too_many_arguments)]
pub open spec fn weighted_sum_6<A: Scalar, T: Storage<A>>(
    downs: Seq<Seq<T>>,
    inners: Seq<Seq<T>>,
    weights: Seq<A>,
    before: Seq<T>,
    k: int,
    lanes: int,
    n: int,
    row: int,
) -> A
    decreases n,
{
    if n <= 0 {
        before[row].widen_spec()
    } else {
        folded::<A, T>(
            weighted_sum_6(downs, inners, weights, before, k, lanes, n - 1, row),
            weights[n - 1],
            slot_dot::<A, T>(downs[n - 1], inners[n - 1], k, row, lanes),
        )
    }
}

/// The accumulated outputs, row by row.
pub open spec fn weighted_rows<A: Scalar, T: Storage<A>>(
    downs: Seq<Seq<T>>,
    inners: Seq<Seq<T>>,
    weights: Seq<A>,
    before: Seq<T>,
    k: int,
    lanes: int,
) -> spec_fn(int) -> T {
    |row: int|
        T::narrow_spec(
            weighted_sum_6::<A, T>(downs, inners, weights, before, k, lanes, 6, row),
        )
}

/// Folds one more expert in.
fn fold<A: Scalar, T: Storage<A>>(acc: A, weight: A, dot: A) -> (r: A)
    ensures
        r == folded::<A, T>(acc, weight, dot),
{
    let d: A = round::<A, T>(dot);
    let c: A = round::<A, T>(weight.times(d));
    round::<A, T>(acc.plus(c))
}

/// Six experts' down projections, weighted and added to `accum`: one threadgroup of
/// `lsize` lanes for each of `m` rows.
#[allow(clippy::too_many_arguments)]
#[verifier::loop_isolation(false)]
pub fn iron_moe_down_weighted_sum_6<A: Scalar, T: Storage<A>>(
    down_0: &[T],
    inner_0: &[T],
    down_1: &[T],
    inner_1: &[T],
    down_2: &[T],
    inner_2: &[T],
    down_3: &[T],
    inner_3: &[T],
    down_4: &[T],
    inner_4: &[T],
    down_5: &[T],
    inner_5: &[T],
    weights: &[A],
    accum: &mut Vec<T>,
    k: u32,
    m: u32,
    lsize: u32,
)
    requires
        m * k <= down_0@.len(),
        m * k <= down_1@.len(),
        m * k <= down_2@.len(),
        m * k <= down_3@.len(),
        m * k <= down_4@.len(),
        m * k <= down_5@.len(),
        k <= inner_0@.len(),
        k <= inner_1@.len(),
        k <= inner_2@.len(),
        k <= inner_3@.len(),
        k <= inner_4@.len(),
        k <= inner_5@.len(),
        weights@.len() >= 6,
        m <= old(accum)@.len(),
        k <= 2048,
        lsize % 32 == 0,
        0 < lsize <= 256,
    ensures
        filled(
            old(accum)@,
            final(accum)@,
            m as int,
            weighted_rows::<A, T>(
                seq![down_0@, down_1@, down_2@, down_3@, down_4@, down_5@],
                seq![inner_0@, inner_1@, inner_2@, inner_3@, inner_4@, inner_5@],
                weights@,
                old(accum)@,
                k as int,
                lsize as int,
            ),
        ),
{
    let ghost before = accum@;
    let ghost downs = seq![down_0@, down_1@, down_2@, down_3@, down_4@, down_5@];
    let ghost inners = seq![inner_0@, inner_1@, inner_2@, inner_3@, inner_4@, inner_5@];
    let ghost value = weighted_rows::<A, T>(
        downs,
        inners,
        weights@,
        before,
        k as int,
        lsize as int,
    );
    let (n, l): (usize, usize) = (k as usize, lsize as usize);
    let rows: Ghost<int> = Ghost(m as int);
    let mut row: usize = 0;
    while row < m as usize
        invariant
            row <= m,
            filled(before, accum@, row as int, value),
        decreases m - row,
    {
        let dot0: A = dot_slot(down_0, inner_0, n, row, l, rows);
        let dot1: A = dot_slot(down_1, inner_1, n, row, l, rows);
        let dot2: A = dot_slot(down_2, inner_2, n, row, l, rows);
        let dot3: A = dot_slot(down_3, inner_3, n, row, l, rows);
        let dot4: A = dot_slot(down_4, inner_4, n, row, l, rows);
        let dot5: A = dot_slot(down_5, inner_5, n, row, l, rows);
        let prev: A = accum[row].widen();
        let a0: A = fold::<A, T>(prev, weights[0], dot0);
        let a1: A = fold::<A, T>(a0, weights[1], dot1);
        let a2: A = fold::<A, T>(a1, weights[2], dot2);
        let a3: A = fold::<A, T>(a2, weights[3], dot3);
        let a4: A = fold::<A, T>(a3, weights[4], dot4);
        let a5: A = fold::<A, T>(a4, weights[5], dot5);
        proof {
            reveal_with_fuel(weighted_sum_6, 7);
        }
        accum[row] = T::narrow(a5);
        row = row + 1;
    }
}

/// In exact arithmetic the sum of simdgroup sums is the plain sum.
proof fn lemma_two_levels<A: Scalar>(parts: Seq<A>)
    requires
        lossless::<A>(),
        parts.len() % 32 == 0,
        parts.len() <= 1024,
    ensures
        two_level_sum(parts) == plain_sum(parts.len() as int, elements(parts)),
{
    let groups = parts.len() as int / 32;
    let tops = Seq::new(
        32,
        |l: int|
            if l < parts.len() / 32 {
                A::lanes_sum_spec(parts.subrange(l * 32, l * 32 + 32))
            } else {
                whole(0)
            },
    );
    let all = elements(parts);
    let sums = unit_sums(32, all);
    assert forall|l: int| 0 <= l < groups implies #[trigger] (elements(tops))(l) == sums(0 + l) by {
        let sub = parts.subrange(l * 32, l * 32 + 32);
        lemma_lanes_sum(sub);
        lemma_sum_shift(whole(0), 0, 32, l * 32, elements(sub), all);
    }
    assert forall|l: int| groups <= l < groups + (32 - groups) implies #[trigger] (elements(tops))(l)
        == whole::<A>(0) by {}
    lemma_lanes_sum(tops);
    lemma_sum_padded(groups, 32 - groups, sums, elements(tops), 0);
    lemma_units(0, groups, 32, all);
}

/// In exact arithmetic every accumulator grows by the experts' weighted plain dot products.
pub proof fn law_weighted_sum_is_plain_sum<A: Scalar, T: Storage<A>>(
    downs: Seq<Seq<T>>,
    inners: Seq<Seq<T>>,
    weights: Seq<A>,
    before: Seq<T>,
    k: int,
    lanes: int,
    n: int,
    row: int,
)
    requires
        lossless::<A>(),
        keeps::<A, T>(),
        0 <= k,
        0 < lanes <= 1024,
        lanes % 32 == 0,
    ensures
        weighted_sum_6::<A, T>(downs, inners, weights, before, k, lanes, n, row) == sum_from(
            before[row].widen_spec(),
            0,
            n,
            |s: int|
                weights[s].times_spec(
                    plain_sum(k, slot_terms::<A, T>(downs[s], inners[s], k, row)),
                ),
        ),
    decreases n,
{
    if n > 0 {
        law_weighted_sum_is_plain_sum::<A, T>(
            downs,
            inners,
            weights,
            before,
            k,
            lanes,
            n - 1,
            row,
        );
        let s = n - 1;
        let terms = slot_terms::<A, T>(downs[s], inners[s], k, row);
        let parts = lane_sums(lanes, k, 1, terms);
        lemma_two_levels(parts);
        lemma_lanes_sum(parts);
        law_reduction_is_plain_sum(lanes, k, 1, terms);
        assert(k * 1 == k);
        let dot = slot_dot::<A, T>(downs[s], inners[s], k, row, lanes);
        assert(rounded::<A, T>(dot) == dot);
        let c = weights[s].times_spec(dot);
        assert(rounded::<A, T>(c) == c);
        let acc = weighted_sum_6::<A, T>(downs, inners, weights, before, k, lanes, s, row);
        assert(rounded::<A, T>(acc.plus_spec(c)) == acc.plus_spec(c));
    }
}

/// In exact arithmetic accumulator `row` grows by the sum over the six experts of the expert's
/// weight times the dot product of its row `row` with its activations.
#[allow(clippy::too_many_arguments)]
pub proof fn law_weighted_down_6<A: Scalar, T: Storage<A>>(
    downs: Seq<Seq<T>>,
    inners: Seq<Seq<T>>,
    weights: Seq<A>,
    before: Seq<T>,
    out: Seq<T>,
    k: int,
    m: int,
    lanes: int,
    row: int,
    a: spec_fn(int, int) -> A,
    v: spec_fn(int, int) -> A,
)
    requires
        lossless::<A>(),
        keeps::<A, T>(),
        filled(before, out, m, weighted_rows::<A, T>(downs, inners, weights, before, k, lanes)),
        0 <= k,
        0 < lanes <= 1024,
        lanes % 32 == 0,
        0 <= row < m,
        forall|s: int, d: int|
            0 <= s < 6 && 0 <= d < k ==> downs[s][row * k + d].widen_spec() == #[trigger] a(s, d),
        forall|s: int, d: int|
            0 <= s < 6 && 0 <= d < k ==> inners[s][d].widen_spec() == #[trigger] v(s, d),
    ensures
        out[row] == T::narrow_spec(
            before[row].widen_spec().plus_spec(
                plain_sum(
                    6,
                    |s: int|
                        weights[s].times_spec(
                            plain_sum(k, |d: int| a(s, d).times_spec(v(s, d))),
                        ),
                ),
            ),
        ),
{
    let first: A = before[row].widen_spec();
    let terms = |s: int|
        weights[s].times_spec(plain_sum(k, slot_terms::<A, T>(downs[s], inners[s], k, row)));
    let plain = |s: int|
        weights[s].times_spec(plain_sum(k, |d: int| a(s, d).times_spec(v(s, d))));
    law_weighted_sum_is_plain_sum::<A, T>(
        downs,
        inners,
        weights,
        before,
        k,
        lanes,
        6,
        row,
    );
    assert forall|s: int| 0 <= s < 6 implies #[trigger] terms(s) == plain(s) by {
        let own = slot_terms::<A, T>(downs[s], inners[s], k, row);
        let dots = |d: int| a(s, d).times_spec(v(s, d));
        assert forall|d: int| 0 <= d < k implies #[trigger] own(d) == dots(d) by {
            assert(Storage::<A>::widen_spec(downs[s][row * k + d]) == a(s, d));
            assert(Storage::<A>::widen_spec(inners[s][d]) == v(s, d));
        }
        lemma_sum_same(whole(0), 0, k, own, dots);
    }
    lemma_sum_same(first, 0, 6, terms, plain);
    lemma_sum_start(first, 0, 6, plain);
    assert(out[row] == (weighted_rows::<A, T>(downs, inners, weights, before, k, lanes))(row));
}

/// The accumulator after every expert, and what the expert adds, are what the buffer type can
/// hold.
pub proof fn law_folds_are_held<A: Scalar, T: Storage<A>>(acc: A, weight: A, dot: A)
    ensures
        exists|sum: T, share: T, own: T|
            {
                &&& folded::<A, T>(acc, weight, dot) == #[trigger] Storage::<A>::widen_spec(sum)
                &&& own == T::narrow_spec(dot)
                &&& share == T::narrow_spec(weight.times_spec(#[trigger] own.widen_spec()))
                &&& sum == T::narrow_spec(acc.plus_spec(#[trigger] share.widen_spec()))
            },
{
    let own = T::narrow_spec(dot);
    let share = T::narrow_spec(weight.times_spec(own.widen_spec()));
    let sum = T::narrow_spec(acc.plus_spec(share.widen_spec()));
    assert(folded::<A, T>(acc, weight, dot) == Storage::<A>::widen_spec(sum));
    assert(Storage::<A>::widen_spec(own) == Storage::<A>::widen_spec(own));
    assert(Storage::<A>::widen_spec(share) == Storage::<A>::widen_spec(share));
}

} // verus!
