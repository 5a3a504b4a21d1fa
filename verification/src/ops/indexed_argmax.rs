//! Argmax over a short list whose entries carry their own identifiers.
use crate::scalar::{Scalar, Storage};
use crate::select::{champion, lead, law_champion_is_first_maximum, number, ordered, ranks, Contest};
use std::marker::PhantomData;
use vstd::prelude::*;

verus! {

/// The identifier that stands for no entry: that of an empty list.
pub const NO_ID: u32 = 4294967295;

/// Entry `j` is a number, and no entry is above it.
pub open spec fn tops<A: Scalar, T: Storage<A>>(values: Seq<T>, n: int, j: int) -> bool {
    &&& 0 <= j < n
    &&& number(values[j].widen_spec())
    &&& forall|i: int|
        0 <= i < n ==> !(#[trigger] values[i]).widen_spec().above_spec(values[j].widen_spec())
}

/// No entry is a number.
pub open spec fn numberless<A: Scalar, T: Storage<A>>(values: Seq<T>, n: int) -> bool {
    forall|i: int| 0 <= i < n ==> !number((#[trigger] values[i]).widen_spec())
}

/// Entry `j` is one of the strongest. Numbers precede what is not a number, so that in a list
/// without numbers every entry is.
pub open spec fn strongest<A: Scalar, T: Storage<A>>(values: Seq<T>, n: int, j: int) -> bool {
    tops::<A, T>(values, n, j) || (0 <= j < n && numberless::<A, T>(values, n))
}

/// `id` is the lowest identifier among the strongest entries, [`NO_ID`] for an empty list.
pub open spec fn names_strongest<A: Scalar, T: Storage<A>>(
    values: Seq<T>,
    indices: Seq<u32>,
    n: int,
    id: u32,
) -> bool {
    &&& n == 0 ==> id == NO_ID
    &&& forall|j: int| #[trigger] strongest::<A, T>(values, n, j) ==> id <= indices[j]
    &&& n > 0 ==> exists|j: int| #[trigger]
        strongest::<A, T>(values, n, j) && id == indices[j]
}

struct List<'a, A, T> {
    values: &'a [T],
    n: usize,
    registers: PhantomData<A>,
}

/// The values of a list.
spec fn list_values<A: Scalar, T: Storage<A>>(values: Seq<T>) -> spec_fn(int) -> A {
    |j: int| values[j].widen_spec()
}

impl<'a, A: Scalar, T: Storage<A>> Contest<A> for List<'a, A, T> {
    closed spec fn ready(&self) -> bool {
        self.n <= self.values@.len()
    }

    closed spec fn size(&self) -> int {
        self.n as int
    }

    closed spec fn cand(&self) -> spec_fn(int) -> A {
        list_values::<A, T>(self.values@)
    }

    fn get(&self, j: usize) -> (v: A) {
        self.values[j].widen()
    }
}

/// Entries equal to the champion are the strongest ones; without a champion all are.
proof fn lemma_strongest<A: Scalar, T: Storage<A>>(values: Seq<T>, n: int)
    requires
        ordered::<A>(),
    ensures
        match champion(list_values::<A, T>(values), n) {
            None => forall|j: int|
                #![trigger values[j]]
                0 <= j < n ==> strongest::<A, T>(values, n, j),
            Some(p) => forall|j: int|
                #![trigger values[j]]
                0 <= j < n ==> (strongest::<A, T>(values, n, j) <==> A::equals_spec(
                    values[j].widen_spec(),
                    values[p].widen_spec(),
                )),
        },
        champion(list_values::<A, T>(values), n) matches Some(p) ==> 0 <= p < n && strongest::<
            A,
            T,
        >(values, n, p),
{
    let cand = list_values::<A, T>(values);
    let rank = choose|rank: spec_fn(A) -> Option<real>| #[trigger] ranks(rank);
    law_champion_is_first_maximum(cand, n);
    match champion(cand, n) {
        None => {
            assert forall|i: int| 0 <= i < n implies !number(
                (#[trigger] values[i]).widen_spec(),
            ) by {
                assert(!number(cand(i)));
            }
            assert(numberless::<A, T>(values, n));
        },
        Some(p) => {
            assert(number(cand(p)));
            assert(number(values[p].widen_spec()));
            assert(!numberless::<A, T>(values, n));
            assert forall|i: int| 0 <= i < n implies !(
            #[trigger] values[i]).widen_spec().above_spec(values[p].widen_spec()) by {
                assert(!cand(i).above_spec(cand(p)));
            }
            assert(tops::<A, T>(values, n, p));
            assert forall|j: int|
                #![trigger values[j]]
                0 <= j < n implies (strongest::<A, T>(values, n, j) <==> A::equals_spec(
                values[j].widen_spec(),
                values[p].widen_spec(),
            )) by {
                assert(!cand(j).above_spec(cand(p)));
                if tops::<A, T>(values, n, j) {
                    assert(!values[p].widen_spec().above_spec(values[j].widen_spec()));
                    assert(number(values[j].widen_spec()));
                }
                if A::equals_spec(values[j].widen_spec(), values[p].widen_spec()) {
                    assert(number(values[j].widen_spec()));
                    assert forall|i: int| 0 <= i < n implies !(
                    #[trigger] values[i]).widen_spec().above_spec(values[j].widen_spec()) by {
                        assert(!values[i].widen_spec().above_spec(values[p].widen_spec()));
                    }
                    assert(tops::<A, T>(values, n, j));
                }
            }
        },
    }
}

/// Stores the lowest identifier among the strongest entries, [`NO_ID`] for an empty list.
/// One simdgroup: at most 32 entries.
#[verifier::loop_isolation(false)]
pub fn iron_indexed_argmax<A: Scalar, T: Storage<A>>(
    values: &[T],
    indices: &[u32],
    out: &mut Vec<u32>,
    n: u32,
)
    requires
        ordered::<A>(),
        n <= 32,
        n <= values@.len(),
        n <= indices@.len(),
        old(out)@.len() > 0,
    ensures
        final(out)@ == old(out)@.update(0, final(out)@[0]),
        names_strongest::<A, T>(values@, indices@, n as int, final(out)@[0]),
{
    let src = List::<A, T> { values, n: n as usize, registers: PhantomData };
    let best = lead(&src, n as usize, 32);
    proof {
        lemma_strongest::<A, T>(values@, n as int);
    }
    let mut id: u32 = NO_ID;
    if n > 0 {
        let first: usize = if best.valid {
            best.id
        } else {
            0
        };
        let mut found: Ghost<int> = Ghost(first as int);
        assert(strongest::<A, T>(values@, n as int, first as int)) by {
            assert(values@[first as int] == values@[first as int]);
        }
        let mut j: usize = 0;
        id = indices[first];
        while j < n as usize
            invariant
                j <= n,
                0 <= found@ < n,
                strongest::<A, T>(values@, n as int, found@),
                id == indices@[found@],
                forall|i: int| #[trigger]
                    strongest::<A, T>(values@, n as int, i) && i < j ==> id <= indices@[i],
            decreases n - j,
        {
            let v: A = values[j].widen();
            let equal: bool = !best.valid || v.equals(best.value);
            assert(equal == strongest::<A, T>(values@, n as int, j as int));
            if equal && indices[j] < id {
                id = indices[j];
                proof {
                    found@ = j as int;
                }
            }
            j = j + 1;
        }
    }
    out[0] = id;
}

/// The identifier that a list gives belongs to an entry that no entry is above, a number if
/// there is one, and no equal entry has a lower one. An empty list gives the largest
/// identifier.
pub proof fn law_indexed_argmax<A: Scalar, T: Storage<A>>(
    values: Seq<T>,
    indices: Seq<u32>,
    n: int,
    id: u32,
) -> (j: int)
    requires
        ordered::<A>(),
        names_strongest::<A, T>(values, indices, n, id),
        0 <= n,
    ensures
        n == 0 ==> id == u32::MAX,
        n > 0 ==> {
            let v = |i: int| Storage::<A>::widen_spec(values[i]);
            &&& 0 <= j < n
            &&& indices[j] == id
            &&& forall|i: int|
                0 <= i < n ==> {
                    &&& !(#[trigger] v(i)).above_spec(v(j))
                    &&& number(v(i)) ==> number(v(j))
                    &&& v(i).equals_spec(v(j)) ==> id <= indices[i]
                    &&& !number(v(j)) ==> id <= indices[i]
                }
        },
{
    if n > 0 {
        let rank = choose|rank: spec_fn(A) -> Option<real>| #[trigger] ranks(rank);
        let j = choose|j: int| #[trigger] strongest::<A, T>(values, n, j) && id == indices[j];
        let v = |i: int| Storage::<A>::widen_spec(values[i]);
        lemma_strongest::<A, T>(values, n);
        law_champion_is_first_maximum(list_values::<A, T>(values), n);
        assert forall|i: int| 0 <= i < n implies {
            &&& !(#[trigger] v(i)).above_spec(v(j))
            &&& number(v(i)) ==> number(v(j))
            &&& v(i).equals_spec(v(j)) ==> id <= indices[i]
            &&& !number(v(j)) ==> id <= indices[i]
        } by {
            assert(values[i] == values[i] && values[j] == values[j]);
            if v(i).equals_spec(v(j)) || !number(v(j)) {
                assert(strongest::<A, T>(values, n, i));
            }
        }
        j
    } else {
        0
    }
}

} // verus!
