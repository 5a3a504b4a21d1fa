//! Row-wise argmax, one threadgroup of 256 lanes per row.
use crate::gemm::packed_rows::holds_values;
use crate::rows::{fill_rows, RowWork};
use crate::scalar::{Scalar, Storage};
use crate::select::{
    champion, law_champion_is_first_maximum, lead, lemma_champion_in, number, ordered, Contest,
};
use crate::tensor::{cell, filled, read};
use std::marker::PhantomData;
use vstd::prelude::*;

verus! {

/// The index that stands for no column.
pub const NO_COLUMN: u32 = 4294967295;

/// The values of row `row`.
pub open spec fn row_values<A: Scalar, T: Storage<A>>(
    inp: Seq<T>,
    n_cols: int,
    row: int,
) -> spec_fn(int) -> A {
    |c: int| cell(inp, n_cols, row, c).widen_spec()
}

/// The first column of each row's largest value, where what is not a number follows every
/// number: column 0 of a row without numbers. [`NO_COLUMN`] where there are no columns.
pub open spec fn row_champions<A: Scalar, T: Storage<A>>(inp: Seq<T>, n_cols: int) -> spec_fn(
    int,
) -> u32 {
    |row: int|
        match champion(row_values::<A, T>(inp, n_cols, row), n_cols) {
            Some(c) => c as u32,
            None => if n_cols > 0 {
                0
            } else {
                NO_COLUMN
            },
        }
}

struct Row<'a, A, T> {
    inp: &'a [T],
    n_cols: usize,
    row: usize,
    rows: Ghost<int>,
    registers: PhantomData<A>,
}

impl<'a, A: Scalar, T: Storage<A>> Contest<A> for Row<'a, A, T> {
    closed spec fn ready(&self) -> bool {
        &&& self.row < self.rows@
        &&& self.rows@ * self.n_cols <= self.inp@.len()
    }

    closed spec fn size(&self) -> int {
        self.n_cols as int
    }

    closed spec fn cand(&self) -> spec_fn(int) -> A {
        row_values::<A, T>(self.inp@, self.n_cols as int, self.row as int)
    }

    fn get(&self, j: usize) -> (v: A) {
        read(self.inp, self.rows, self.n_cols, self.row, j).widen()
    }
}

struct Rows<'a, A, T> {
    inp: &'a [T],
    n_cols: usize,
    n_rows: usize,
    registers: PhantomData<A>,
}

impl<'a, A: Scalar, T: Storage<A>> RowWork<u32> for Rows<'a, A, T> {
    closed spec fn ready(&self) -> bool {
        &&& ordered::<A>()
        &&& self.n_rows * self.n_cols <= self.inp@.len()
        &&& self.n_cols + 256 <= u32::MAX
    }

    closed spec fn rows(&self) -> int {
        self.n_rows as int
    }

    closed spec fn values(&self, before: Seq<u32>) -> spec_fn(int) -> u32 {
        row_champions::<A, T>(self.inp@, self.n_cols as int)
    }

    fn row(&self, prev: u32, r: usize, before: Ghost<Seq<u32>>) -> (v: u32) {
        let src = Row::<A, T> {
            inp: self.inp,
            n_cols: self.n_cols,
            row: r,
            rows: Ghost(self.n_rows as int),
            registers: PhantomData,
        };
        let best = lead(&src, self.n_cols, 256);
        if best.valid {
            best.id as u32
        } else if self.n_cols > 0 {
            0
        } else {
            NO_COLUMN
        }
    }
}

/// The column of the largest value of every row. Equal values prefer the lower column, and
/// what is not a number follows the numbers.
pub fn iron_argmax_rows<A: Scalar, T: Storage<A>>(
    inp: &[T],
    out: &mut Vec<u32>,
    n_cols: u32,
    n_rows: u32,
)
    requires
        ordered::<A>(),
        n_rows * n_cols <= inp@.len(),
        n_rows <= old(out)@.len(),
        n_cols + 256 <= u32::MAX,
        n_rows < u32::MAX,
    ensures
        filled(
            old(out)@,
            final(out)@,
            n_rows as int,
            row_champions::<A, T>(inp@, n_cols as int),
        ),
        n_cols > 0 ==> forall|row: int|
            0 <= row < n_rows ==> #[trigger] final(out)@[row] < n_cols,
{
    let work = Rows::<A, T> {
        inp,
        n_cols: n_cols as usize,
        n_rows: n_rows as usize,
        registers: PhantomData,
    };
    fill_rows(&work, out, n_rows as usize, 1);
    proof {
        if n_cols > 0 {
            assert forall|row: int| 0 <= row < n_rows implies #[trigger] out@[row] < n_cols by {
                law_every_row_has_a_column::<A, T>(inp@, n_cols as int, row);
            }
        }
    }
}

/// Every row of at least one column gives one of its columns.
pub proof fn law_every_row_has_a_column<A: Scalar, T: Storage<A>>(
    inp: Seq<T>,
    n_cols: int,
    row: int,
)
    requires
        0 < n_cols <= u32::MAX,
    ensures
        (row_champions::<A, T>(inp, n_cols))(row) < n_cols,
{
    lemma_champion_in(row_values::<A, T>(inp, n_cols, row), n_cols);
}

/// The column that a row gives holds a number that no number of the row is above, and no
/// earlier column holds an equal one. A row without numbers gives column 0, a row without
/// columns the largest index.
pub proof fn law_row_argmax<A: Scalar, T: Storage<A>>(
    inp: Seq<T>,
    before: Seq<u32>,
    out: Seq<u32>,
    n_rows: int,
    n_cols: int,
    row: int,
    v: spec_fn(int) -> A,
)
    requires
        ordered::<A>(),
        filled(before, out, n_rows, row_champions::<A, T>(inp, n_cols)),
        0 <= row < n_rows,
        0 <= n_cols <= u32::MAX,
        holds_values::<A, T>(inp, row * n_cols, n_cols, v),
    ensures
        ({
            let c = out[row] as int;
            if exists|j: int| 0 <= j < n_cols && number(#[trigger] v(j)) {
                &&& c < n_cols
                &&& number(v(c))
                &&& forall|j: int| 0 <= j < n_cols ==> !(#[trigger] v(j)).above_spec(v(c))
                &&& forall|j: int| 0 <= j < c ==> !(#[trigger] v(j)).equals_spec(v(c))
            } else if n_cols > 0 {
                c == 0
            } else {
                c == u32::MAX
            }
        }),
{
    let own = row_values::<A, T>(inp, n_cols, row);
    law_champion_is_first_maximum(own, n_cols);
    assert forall|j: int| 0 <= j < n_cols implies #[trigger] own(j) == v(j) by {
        assert(Storage::<A>::widen_spec(inp[row * n_cols + j]) == v(j));
    }
    assert(out[row] == (row_champions::<A, T>(inp, n_cols))(row));
    match champion(own, n_cols) {
        None => {
            assert forall|j: int| 0 <= j < n_cols implies !number(#[trigger] v(j)) by {
                assert(!number(own(j)));
            }
        },
        Some(p) => {
            assert(own(p) == v(p));
            assert forall|j: int| 0 <= j < n_cols implies !(#[trigger] v(j)).above_spec(v(p)) && (j
                < p ==> !v(j).equals_spec(v(p))) by {
                assert(own(j) == v(j));
            }
        },
    }
}

} // verus!
