//! Selection of the strongest candidate, strided over lanes.
use crate::scalar::Scalar;
use vstd::prelude::*;

verus! {

/// `rank` orders the scalars as their comparisons do; what has no rank is not a number.
pub open spec fn ranks<A: Scalar>(rank: spec_fn(A) -> Option<real>) -> bool {
    &&& forall|a: A, b: A| #[trigger]
        a.above_spec(b) == (rank(a) matches Some(p) && rank(b) matches Some(q) && p > q)
    &&& forall|a: A, b: A| #[trigger]
        a.equals_spec(b) == (rank(a) matches Some(p) && rank(b) matches Some(q) && p == q)
    &&& rank(A::lowest_spec()) is Some
    &&& forall|a: A| !(#[trigger] A::lowest_spec().above_spec(a))
}

/// The comparisons are those of a total order with not-a-numbers set apart.
pub open spec fn ordered<A: Scalar>() -> bool {
    exists|rank: spec_fn(A) -> Option<real>| #[trigger] ranks(rank)
}

/// Whether `a` is a number.
pub open spec fn number<A: Scalar>(a: A) -> bool {
    a.equals_spec(a)
}

/// The first of the strongest numbers among the first `n` candidates.
pub open spec fn champion<A: Scalar>(cand: spec_fn(int) -> A, n: int) -> Option<int>
    decreases n,
{
    if n <= 0 {
        None
    } else {
        match champion(cand, n - 1) {
            None => if number(cand(n - 1)) {
                Some(n - 1)
            } else {
                None
            },
            Some(p) => if cand(n - 1).above_spec(cand(p)) {
                Some(n - 1)
            } else {
                Some(p)
            },
        }
    }
}

/// The indices below `n`.
spec fn all(n: int) -> Set<int> {
    Set::new(|j: int| 0 <= j < n)
}

/// The indices below `n` that lanes `lo..hi` of `lanes` own.
spec fn owned(n: int, lanes: int, lo: int, hi: int) -> Set<int> {
    Set::new(|j: int| 0 <= j < n && lo <= j % lanes < hi)
}

/// What a champion is among the candidates of `group`.
spec fn leads<A: Scalar>(
    rank: spec_fn(A) -> Option<real>,
    cand: spec_fn(int) -> A,
    group: Set<int>,
    c: Option<int>,
) -> bool {
    match c {
        None => forall|j: int| group.contains(j) ==> rank(#[trigger] cand(j)) is None,
        Some(p) => {
            &&& group.contains(p)
            &&& rank(cand(p)) is Some
            &&& forall|j: int|
                group.contains(j) ==> (rank(#[trigger] cand(j)) matches Some(q) ==> q < rank(cand(p))->0
                    || q == rank(cand(p))->0 && p <= j)
        },
    }
}

/// The champion of the first `n` candidates leads them.
proof fn lemma_champion<A: Scalar>(rank: spec_fn(A) -> Option<real>, cand: spec_fn(int) -> A, n: int)
    requires
        ranks(rank),
    ensures
        leads(rank, cand, all(n), champion(cand, n)),
    decreases n,
{
    if n > 0 {
        lemma_champion(rank, cand, n - 1);
        let before = all(n - 1);
        let now = all(n);
        match champion(cand, n - 1) {
            None => {
                assert forall|j: int| now.contains(j) && rank(#[trigger] cand(j)) is Some implies j
                    == n - 1 by {
                    if j < n - 1 {
                        assert(before.contains(j));
                    }
                }
            },
            Some(p) => {
                assert(before.contains(p));
                assert forall|j: int| now.contains(j) && rank(#[trigger] cand(j)) is Some implies j
                    == n - 1 || rank(cand(j))->0 < rank(cand(p))->0 || rank(cand(j))->0 == rank(
                    cand(p),
                )->0 && p <= j by {
                    if j < n - 1 {
                        assert(before.contains(j));
                    }
                }
            },
        }
    }
}

/// Two leaders of one group are the same.
proof fn lemma_one_leader<A: Scalar>(
    rank: spec_fn(A) -> Option<real>,
    cand: spec_fn(int) -> A,
    group: Set<int>,
    c: Option<int>,
    d: Option<int>,
)
    requires
        leads(rank, cand, group, c),
        leads(rank, cand, group, d),
    ensures
        c == d,
{
    if c is Some {
        assert(group.contains(c->0));
        assert(rank(cand(c->0)) is Some);
    }
    if d is Some {
        assert(group.contains(d->0));
        assert(rank(cand(d->0)) is Some);
    }
}

/// The candidates of a selection, with the buffers that they are read from.
pub(crate) trait Contest<A: Scalar> {
    spec fn ready(&self) -> bool;

    spec fn size(&self) -> int;

    spec fn cand(&self) -> spec_fn(int) -> A;

    fn get(&self, j: usize) -> (v: A)
        requires
            self.ready(),
            j < self.size(),
        ensures
            v == (self.cand())(j as int),
    ;
}

/// A lane's or a threadgroup's leader so far.
pub(crate) struct Leader<A> {
    pub value: A,
    pub id: usize,
    pub valid: bool,
}

/// The index of a leader.
pub open spec fn place(valid: bool, id: usize) -> Option<int> {
    if valid {
        Some(id as int)
    } else {
        None
    }
}

/// The leader of the candidates that `lane` of `lanes` owns.
#[verifier::loop_isolation(false)]
fn lead_lane<A: Scalar, C: Contest<A>>(
    src: &C,
    n: usize,
    lanes: usize,
    lane: usize,
    rank: Ghost<spec_fn(A) -> Option<real>>,
) -> (best: Leader<A>)
    requires
        src.ready(),
        n == src.size(),
        lane < lanes,
        n + lanes <= usize::MAX,
        ranks(rank@),
    ensures
        leads(
            rank@,
            src.cand(),
            owned(n as int, lanes as int, lane as int, lane + 1),
            place(best.valid, best.id),
        ),
        best.valid ==> best.value == (src.cand())(best.id as int),
{
    let ghost cand = src.cand();
    let ghost own = owned(n as int, lanes as int, lane as int, lane + 1);
    let mut best = Leader { value: A::lowest(), id: 0, valid: false };
    let mut j: usize = lane;
    proof {
        vstd::arithmetic::div_mod::lemma_small_mod(lane as nat, lanes as nat);
        assert forall|i: int| own.contains(i) implies i >= lane by {
            vstd::arithmetic::div_mod::lemma_fundamental_div_mod(i, lanes as int);
            vstd::arithmetic::div_mod::lemma_div_pos_is_pos(i, lanes as int);
            assert(lanes * (i / (lanes as int)) >= 0) by (nonlinear_arith)
                requires
                    i / (lanes as int) >= 0,
            ;
        }
    }
    while j < n
        invariant
            j < n + lanes,
            j as int % (lanes as int) == lane,
            leads(rank@, cand, own.intersect(all(j as int)), place(best.valid, best.id)),
            best.valid ==> best.value == cand(best.id as int),
        decreases n + lanes - j,
    {
        let value: A = src.get(j);
        let numeric: bool = value.equals(value);
        let better: bool = numeric && (!best.valid || value.above(best.value));
        let ghost was = place(best.valid, best.id);
        let ghost before = own.intersect(all(j as int));
        if better {
            best = Leader { value, id: j, valid: true };
        }
        proof {
            let after = own.intersect(all(j + lanes));
            assert forall|i: int| after.contains(i) implies before.contains(i) || i == j by {
                lemma_stride(i, j as int, lanes as int);
            }
            assert(after.contains(j as int));
            if was is Some {
                assert(before.contains(was->0));
                assert(after.contains(was->0));
            }
            let now = place(best.valid, best.id);
            assert(leads(rank@, cand, after, now)) by {
                assert forall|i: int| after.contains(i) implies (match now {
                    None => rank@(#[trigger] cand(i)) is None,
                    Some(p) => rank@(cand(i)) matches Some(q) ==> q < rank@(cand(p))->0 || q
                        == rank@(cand(p))->0 && p <= i,
                }) by {
                    assert(before.contains(i) || i == j);
                }
            }
            vstd::arithmetic::div_mod::lemma_mod_multiples_vanish(1, j as int, lanes as int);
        }
        j = j + lanes;
    }
    proof {
        assert(own =~= own.intersect(all(j as int)));
    }
    best
}

/// Candidates of one lane lie a stride apart.
proof fn lemma_stride(i: int, j: int, lanes: int)
    requires
        lanes > 0,
        i % lanes == j % lanes,
        i < j + lanes,
    ensures
        i <= j,
{
    vstd::arithmetic::div_mod::lemma_fundamental_div_mod(i, lanes);
    vstd::arithmetic::div_mod::lemma_fundamental_div_mod(j, lanes);
    let (a, b) = (i / lanes, j / lanes);
    assert(a <= b) by (nonlinear_arith)
        requires
            lanes * a < lanes * b + lanes,
            lanes > 0,
    ;
    assert(lanes * a <= lanes * b) by (nonlinear_arith)
        requires
            a <= b,
            lanes > 0,
    ;
}

/// The champion: every lane finds its leader, then the leaders are compared, equal ones by
/// their index.
#[verifier::loop_isolation(false)]
pub(crate) fn lead<A: Scalar, C: Contest<A>>(src: &C, n: usize, lanes: usize) -> (best: Leader<A>)
    requires
        src.ready(),
        n == src.size(),
        lanes > 0,
        n + lanes <= usize::MAX,
        ordered::<A>(),
    ensures
        place(best.valid, best.id) == champion(src.cand(), n as int),
        best.valid ==> best.id < n && best.value == (src.cand())(best.id as int),
{
    let ghost cand = src.cand();
    let ghost rank = choose|rank: spec_fn(A) -> Option<real>| #[trigger] ranks(rank);
    let mut best: Leader<A> = Leader { value: A::lowest(), id: 0, valid: false };
    let mut lane: usize = 0;
    while lane < lanes
        invariant
            lane <= lanes,
            leads(
                rank,
                cand,
                owned(n as int, lanes as int, 0, lane as int),
                place(best.valid, best.id),
            ),
            best.valid ==> best.value == cand(best.id as int),
        decreases lanes - lane,
    {
        let own: Leader<A> = lead_lane(src, n, lanes, lane, Ghost(rank));
        let ghost before = owned(n as int, lanes as int, 0, lane as int);
        let ghost mine = owned(n as int, lanes as int, lane as int, lane + 1);
        let ghost (p, q) = (place(best.valid, best.id), place(own.valid, own.id));
        proof {
            if p is Some {
                assert(before.contains(p->0));
            }
            if q is Some {
                assert(mine.contains(q->0));
            }
        }
        if own.valid {
            if !best.valid || own.value.above(best.value) || (own.value.equals(best.value) && own.id
                < best.id) {
                best = own;
            }
        }
        proof {
            let after = owned(n as int, lanes as int, 0, lane + 1);
            let now = place(best.valid, best.id);
            assert forall|i: int| after.contains(i) implies before.contains(i) || mine.contains(i) by {}
            assert(leads(rank, cand, after, now)) by {
                if now is Some {
                    assert(before.contains(now->0) || mine.contains(now->0));
                }
                assert forall|i: int| after.contains(i) implies (match now {
                    None => rank(#[trigger] cand(i)) is None,
                    Some(p) => rank(cand(i)) matches Some(q) ==> q < rank(cand(p))->0 || q == rank(
                        cand(p),
                    )->0 && p <= i,
                }) by {
                    assert(before.contains(i) || mine.contains(i));
                }
            }
        }
        lane = lane + 1;
    }
    proof {
        let whole = all(n as int);
        assert(owned(n as int, lanes as int, 0, lanes as int) =~= whole) by {
            assert forall|i: int| #[trigger] whole.contains(i) implies 0 <= i % (lanes as int)
                < lanes by {
                vstd::arithmetic::div_mod::lemma_mod_bound(i, lanes as int);
            }
        }
        lemma_champion(rank, cand, n as int);
        lemma_one_leader(
            rank,
            cand,
            whole,
            place(best.valid, best.id),
            champion(cand, n as int),
        );
        if best.valid {
            assert(whole.contains(best.id as int));
        }
    }
    best
}

/// The champion is a number, no other candidate is above it, and no candidate before it is
/// equal to it; there is none only where no candidate is a number.
pub proof fn law_champion_is_first_maximum<A: Scalar>(cand: spec_fn(int) -> A, n: int)
    requires
        ordered::<A>(),
    ensures
        match champion(cand, n) {
            None => forall|j: int| 0 <= j < n ==> !number(#[trigger] cand(j)),
            Some(p) => {
                &&& 0 <= p < n
                &&& number(cand(p))
                &&& forall|j: int| 0 <= j < n ==> !(#[trigger] cand(j)).above_spec(cand(p))
                &&& forall|j: int| 0 <= j < p ==> !(#[trigger] cand(j)).equals_spec(cand(p))
            },
        },
{
    let rank = choose|rank: spec_fn(A) -> Option<real>| #[trigger] ranks(rank);
    lemma_champion(rank, cand, n);
    let c = champion(cand, n);
    if c is Some {
        assert(all(n).contains(c->0));
    }
    assert forall|j: int| 0 <= j < n implies #[trigger] all(n).contains(j) by {}
    match c {
        None => {
            assert forall|j: int| 0 <= j < n implies !number(#[trigger] cand(j)) by {
                assert(all(n).contains(j));
            }
        },
        Some(p) => {
            assert forall|j: int| 0 <= j < n implies !(#[trigger] cand(j)).above_spec(cand(p)) && (j
                < p ==> !cand(j).equals_spec(cand(p))) by {
                assert(all(n).contains(j));
            }
        },
    }
}

/// The candidates, those at `chosen` out of the running.
pub open spec fn masked<A: Scalar>(v: spec_fn(int) -> A, chosen: Seq<int>) -> spec_fn(int) -> A {
    |j: int|
        if chosen.contains(j) {
            A::lowest_spec()
        } else {
            v(j)
        }
}

/// The strongest candidate above the lowest number, 0 where there is none.
pub open spec fn pick<A: Scalar>(cand: spec_fn(int) -> A, n: int) -> int {
    match champion(cand, n) {
        Some(p) if cand(p).above_spec(A::lowest_spec()) => p,
        _ => 0,
    }
}

/// The value of the strongest candidate, the lowest number where none is above it.
pub open spec fn strength<A: Scalar>(cand: spec_fn(int) -> A, n: int) -> A {
    match champion(cand, n) {
        Some(p) if cand(p).above_spec(A::lowest_spec()) => cand(p),
        _ => A::lowest_spec(),
    }
}

/// The first `k` picks, each without the picks before it.
pub open spec fn picks<A: Scalar>(v: spec_fn(int) -> A, n: int, k: int) -> Seq<int>
    decreases k,
{
    if k <= 0 {
        Seq::empty()
    } else {
        let before = picks(v, n, k - 1);
        before.push(pick(masked(v, before), n))
    }
}

/// The values of the first `k` picks.
pub open spec fn strengths<A: Scalar>(v: spec_fn(int) -> A, n: int, k: int) -> Seq<A> {
    Seq::new(k as nat, |i: int| strength(masked(v, picks(v, n, i)), n))
}

/// There are `k` picks, and they start with every shorter list of picks.
pub proof fn lemma_picks<A: Scalar>(v: spec_fn(int) -> A, n: int, k: int, i: int)
    requires
        0 <= i <= k,
    ensures
        picks(v, n, k).len() == k,
        picks(v, n, k).take(i) == picks(v, n, i),
        forall|j: int|
            0 <= j < k ==> 0 <= #[trigger] picks(v, n, k)[j] && (n > 0 ==> picks(v, n, k)[j] < n),
    decreases k,
{
    if k > 0 {
        lemma_picks(v, n, k - 1, if i < k {
            i
        } else {
            k - 1
        });
        let before = picks(v, n, k - 1);
        let cand = masked(v, before);
        lemma_champion_in(cand, n);
        if i < k {
            assert(picks(v, n, k).take(i) =~= before.take(i));
        } else {
            assert(picks(v, n, k).take(i) =~= picks(v, n, k));
        }
    } else {
        assert(picks(v, n, k).take(i) =~= picks(v, n, i));
    }
}

/// A champion is a candidate.
pub(crate) proof fn lemma_champion_in<A: Scalar>(cand: spec_fn(int) -> A, n: int)
    ensures
        champion(cand, n) matches Some(p) ==> 0 <= p < n,
    decreases n,
{
    if n > 0 {
        lemma_champion_in(cand, n - 1);
    }
}

/// As long as candidates above the lowest number are left, every pick is a new one, nothing
/// left is above it, and what is left and equal to it comes after it.
pub proof fn law_picks_descend<A: Scalar>(v: spec_fn(int) -> A, n: int, k: int, i: int, left: int)
    requires
        ordered::<A>(),
        0 <= i < k,
        0 <= left < n,
        !picks(v, n, i).contains(left),
        v(left).above_spec(A::lowest_spec()),
    ensures
        0 <= picks(v, n, k)[i] < n,
        !picks(v, n, i).contains(picks(v, n, k)[i]),
        v(picks(v, n, k)[i]).above_spec(A::lowest_spec()),
        !v(left).above_spec(v(picks(v, n, k)[i])),
        v(left).equals_spec(v(picks(v, n, k)[i])) ==> picks(v, n, k)[i] <= left,
        strengths(v, n, k)[i] == v(picks(v, n, k)[i]),
{
    let rank = choose|rank: spec_fn(A) -> Option<real>| #[trigger] ranks(rank);
    lemma_picks(v, n, k, i + 1);
    lemma_picks(v, n, i + 1, i);
    assert(picks(v, n, k)[i] == picks(v, n, k).take(i + 1)[i]);
    let before = picks(v, n, i);
    let cand = masked(v, before);
    assert(picks(v, n, i + 1) == before.push(pick(cand, n)));
    law_champion_is_first_maximum(cand, n);
    assert(cand(left) == v(left));
    assert(number(cand(left)));
    let p = champion(cand, n)->0;
    assert(champion(cand, n) == Some(p));
    assert(!cand(left).above_spec(cand(p)));
    if before.contains(p) {
        assert(cand(p) == A::lowest_spec());
    }
    assert(cand(p).above_spec(A::lowest_spec()));
    if v(left).equals_spec(v(p)) && left < p {
        assert(!cand(left).equals_spec(cand(p)));
    }
}

/// A contest without some of its candidates.
struct Masked<'a, C> {
    inner: &'a C,
    chosen: &'a Vec<usize>,
}

/// Indices as integers.
spec fn as_ints(s: Seq<usize>) -> Seq<int> {
    s.map_values(|i: usize| i as int)
}

impl<'a, A: Scalar, C: Contest<A>> Contest<A> for Masked<'a, C> {
    closed spec fn ready(&self) -> bool {
        self.inner.ready()
    }

    closed spec fn size(&self) -> int {
        self.inner.size()
    }

    closed spec fn cand(&self) -> spec_fn(int) -> A {
        masked(self.inner.cand(), as_ints(self.chosen@))
    }

    fn get(&self, j: usize) -> (v: A) {
        let mut taken: bool = false;
        let mut p: usize = 0;
        while p < self.chosen.len()
            invariant
                p <= self.chosen@.len(),
                taken == exists|i: int| 0 <= i < p && #[trigger] self.chosen@[i] == j,
            decreases self.chosen@.len() - p,
        {
            if self.chosen[p] == j {
                taken = true;
            }
            p = p + 1;
        }
        proof {
            let ints = as_ints(self.chosen@);
            if taken {
                let i = choose|i: int| 0 <= i < p && #[trigger] self.chosen@[i] == j;
                assert(ints[i] == j);
            } else if ints.contains(j as int) {
                let i = choose|i: int| 0 <= i < ints.len() && ints[i] == j;
                assert(self.chosen@[i] == j);
            }
        }
        if taken {
            A::lowest()
        } else {
            self.inner.get(j)
        }
    }
}

/// Makes `k` picks, every one by `lanes` lanes; also gives their values.
#[verifier::loop_isolation(false)]
pub(crate) fn pick_top<A: Scalar, C: Contest<A>>(
    src: &C,
    n: usize,
    lanes: usize,
    k: usize,
) -> (r: (Vec<usize>, Vec<A>))
    requires
        src.ready(),
        n == src.size(),
        lanes > 0,
        n + lanes <= usize::MAX,
        ordered::<A>(),
    ensures
        r.0@.len() == k,
        forall|i: int|
            0 <= i < k ==> #[trigger] r.0@[i] as int == picks(src.cand(), n as int, k as int)[i],
        forall|i: int| 0 <= i < k ==> 0 <= #[trigger] r.0@[i] && (n > 0 ==> r.0@[i] < n),
        r.1@ == strengths(src.cand(), n as int, k as int),
{
    let ghost v = src.cand();
    let mut ids: Vec<usize> = Vec::new();
    let mut vals: Vec<A> = Vec::new();
    let mut it: usize = 0;
    assert(as_ints(ids@) =~= picks(v, n as int, 0));
    while it < k
        invariant
            it <= k,
            as_ints(ids@) == picks(v, n as int, it as int),
            vals@ == strengths(v, n as int, it as int),
        decreases k - it,
    {
        let ghost before = as_ints(ids@);
        let contest = Masked { inner: src, chosen: &ids };
        let best: Leader<A> = lead(&contest, n, lanes);
        let low: A = A::lowest();
        let found: bool = best.valid && best.value.above(low);
        let (id, val): (usize, A) = if found {
            (best.id, best.value)
        } else {
            (0, low)
        };
        proof {
            assert(id == pick(masked(v, before), n as int));
            assert(val == strength(masked(v, before), n as int));
        }
        ids.push(id);
        vals.push(val);
        proof {
            assert(as_ints(ids@) =~= before.push(id as int));
            assert(vals@ =~= strengths(v, n as int, it + 1));
        }
        it = it + 1;
    }
    proof {
        lemma_picks(v, n as int, k as int, k as int);
        assert(ids@.len() == as_ints(ids@).len());
        assert forall|i: int| 0 <= i < k implies #[trigger] ids@[i] as int == picks(
            v,
            n as int,
            k as int,
        )[i] by {
            assert(as_ints(ids@)[i] == ids@[i] as int);
        }
    }
    (ids, vals)
}

/// Where every candidate above the lowest number is taken, the pick is 0 and its strength the
/// lowest number.
pub proof fn law_nothing_left<A: Scalar>(v: spec_fn(int) -> A, n: int, k: int, i: int)
    requires
        ordered::<A>(),
        0 <= i < k,
        forall|j: int|
            0 <= j < n && !picks(v, n, i).contains(j) ==> !(#[trigger] v(j)).above_spec(
                A::lowest_spec(),
            ),
    ensures
        picks(v, n, k)[i] == 0,
        strengths(v, n, k)[i] == A::lowest_spec(),
{
    lemma_picks(v, n, k, i + 1);
    lemma_picks(v, n, i + 1, i);
    assert(picks(v, n, k)[i] == picks(v, n, k).take(i + 1)[i]);
    let before = picks(v, n, i);
    let cand = masked(v, before);
    assert(picks(v, n, i + 1) == before.push(pick(cand, n)));
    lemma_champion_in(cand, n);
    if let Some(p) = champion(cand, n) {
        if before.contains(p) {
            assert(!A::lowest_spec().above_spec(A::lowest_spec()));
        } else {
            assert(!v(p).above_spec(A::lowest_spec()));
        }
    }
}

} // verus!
