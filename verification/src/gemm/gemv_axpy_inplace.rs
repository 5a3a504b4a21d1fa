//! GEMV with a weighted in-place update: `accum[r] += weight * (mat[r] . vec)`.
use crate::exact::{law_reduction_is_plain_sum, lemma_sum_same, lossless, plain_sum};
use crate::gemm::packed_rows::holds_values;
use crate::rows::{fill_rows, finish, stored, Finish, RowWork};
use crate::scalar::{group_sum, run_group, sum_from, whole, LaneWork, Scalar, Storage};
use crate::tensor::{cell, filled, read};
use vstd::prelude::*;

verus! {

/// The products of matrix row `row` with the vector.
pub open spec fn dense_terms<A: Scalar, T: Storage<A>>(
    mat: Seq<T>,
    vec: Seq<T>,
    k: int,
    row: int,
) -> spec_fn(int) -> A {
    |i: int| cell(mat, k, row, i).widen_spec().times_spec(vec[i].widen_spec())
}

/// The updated accumulators, each dot product strided over `lsize` lanes.
pub open spec fn axpy_rows<A: Scalar, T: Storage<A>>(
    before: Seq<T>,
    mat: Seq<T>,
    vec: Seq<T>,
    k: int,
    weight: A,
    lsize: int,
) -> spec_fn(int) -> T {
    |row: int|
        stored(
            Finish::Axpy(weight),
            before[row],
            group_sum(lsize, k, 1, dense_terms::<A, T>(mat, vec, k, row)),
        )
}

struct DenseRow<'a, T> {
    mat: &'a [T],
    vec: &'a [T],
    k: usize,
    row: usize,
    rows: Ghost<int>,
}

impl<'a, A: Scalar, T: Storage<A>> LaneWork<A> for DenseRow<'a, T> {
    closed spec fn ready(&self) -> bool {
        &&& self.rows@ * self.k <= self.mat@.len()
        &&& self.row < self.rows@
        &&& self.k <= self.vec@.len()
    }

    closed spec fn units(&self) -> int {
        self.k as int
    }

    closed spec fn unit(&self) -> int {
        1
    }

    closed spec fn terms(&self) -> spec_fn(int) -> A {
        dense_terms::<A, T>(self.mat@, self.vec@, self.k as int, self.row as int)
    }

    fn accumulate(&self, acc: A, u: usize) -> (r: A) {
        proof {
            reveal_with_fuel(sum_from, 2);
        }
        let m: A = read(self.mat, self.rows, self.k, self.row, u).widen();
        acc.plus(m.times(self.vec[u].widen()))
    }
}

struct AxpyRows<'a, A, T> {
    mat: &'a [T],
    vec: &'a [T],
    k: usize,
    m: usize,
    lsize: usize,
    weight: A,
}

impl<'a, A: Scalar, T: Storage<A>> RowWork<T> for AxpyRows<'a, A, T> {
    closed spec fn ready(&self) -> bool {
        &&& self.m * self.k <= self.mat@.len()
        &&& self.k <= self.vec@.len()
        &&& self.lsize > 0
        &&& self.k + self.lsize <= usize::MAX
    }

    closed spec fn rows(&self) -> int {
        self.m as int
    }

    closed spec fn values(&self, before: Seq<T>) -> spec_fn(int) -> T {
        axpy_rows::<A, T>(
            before,
            self.mat@,
            self.vec@,
            self.k as int,
            self.weight,
            self.lsize as int,
        )
    }

    fn row(&self, prev: T, r: usize, before: Ghost<Seq<T>>) -> (v: T) {
        let work = DenseRow {
            mat: self.mat,
            vec: self.vec,
            k: self.k,
            row: r,
            rows: Ghost(self.m as int),
        };
        let total: A = run_group(&work, self.k, self.lsize);
        finish(&Finish::Axpy(self.weight), prev, total)
    }
}

/// Adds `weight` times the matrix-vector product to the first `m` accumulators, one
/// threadgroup of `lsize` lanes per row.
pub fn iron_gemv_axpy_inplace<A: Scalar, T: Storage<A>>(
    mat: &[T],
    vec: &[T],
    accum: &mut Vec<T>,
    k: u32,
    weight: A,
    m: u32,
    lsize: u32,
)
    requires
        m * k <= mat@.len(),
        k <= vec@.len(),
        m <= old(accum)@.len(),
        m < u32::MAX,
        lsize > 0,
        k + lsize <= u32::MAX,
    ensures
        filled(
            old(accum)@,
            final(accum)@,
            m as int,
            axpy_rows::<A, T>(old(accum)@, mat@, vec@, k as int, weight, lsize as int),
        ),
{
    let work = AxpyRows {
        mat,
        vec,
        k: k as usize,
        m: m as usize,
        lsize: lsize as usize,
        weight,
    };
    fill_rows(&work, accum, m as usize, 1);
}

/// In exact arithmetic accumulator `row` grows by `weight` times the dot product of the matrix
/// row and the vector.
#[allow(clippy::too_many_arguments)]
pub proof fn law_axpy<A: Scalar, T: Storage<A>>(
    mat: Seq<T>,
    vec: Seq<T>,
    before: Seq<T>,
    out: Seq<T>,
    k: int,
    weight: A,
    m: int,
    lsize: int,
    row: int,
    a: spec_fn(int) -> A,
    v: spec_fn(int) -> A,
)
    requires
        lossless::<A>(),
        filled(before, out, m, axpy_rows::<A, T>(before, mat, vec, k, weight, lsize)),
        0 <= k,
        0 < lsize,
        0 <= row < m,
        holds_values::<A, T>(mat, row * k, k, a),
        holds_values::<A, T>(vec, 0, k, v),
    ensures
        out[row] == T::narrow_spec(
            before[row].widen_spec().plus_spec(
                weight.times_spec(plain_sum(k, |i: int| a(i).times_spec(v(i)))),
            ),
        ),
{
    let terms = dense_terms::<A, T>(mat, vec, k, row);
    let plain = |i: int| a(i).times_spec(v(i));
    law_reduction_is_plain_sum(lsize, k, 1, terms);
    assert(k * 1 == k);
    assert forall|i: int| 0 <= i < k implies #[trigger] terms(i) == plain(i) by {
        assert(Storage::<A>::widen_spec(mat[row * k + i]) == a(i));
        assert(Storage::<A>::widen_spec(vec[0 + i]) == v(i));
    }
    lemma_sum_same(whole(0), 0, k, terms, plain);
    assert(out[row] == (axpy_rows::<A, T>(before, mat, vec, k, weight, lsize))(row));
}

} // verus!
