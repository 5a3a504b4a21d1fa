//! Q8_0 rows: blocks of 32 signed bytes under one scale, packed four to a word.
use crate::scalar::{sum_from, whole, LaneWork, Scalar, Storage};
use crate::tensor::{cell, read};
use vstd::prelude::*;

verus! {

/// A byte read as a two's complement integer.
pub open spec fn signed_byte(by: u32) -> int {
    if by > 127 {
        by - 256
    } else {
        by as int
    }
}

/// Code `k` of row `row`.
pub open spec fn q8_code(qs: Seq<u32>, k_in: int, row: int, k: int) -> int {
    signed_byte((cell(qs, k_in / 32 * 8, row, k / 4) >> (((k % 4) * 8) as u32)) & 0xff)
}

/// The products of weight row `row` with the activations from `off` on: column `k`
/// contributes `(d * q) * x`.
pub open spec fn q8_terms<A: Scalar, D: Storage<A>, T: Storage<A>>(
    qs: Seq<u32>,
    d: Seq<D>,
    x: Seq<T>,
    off: int,
    k_in: int,
    row: int,
) -> spec_fn(int) -> A {
    |k: int|
        cell(d, k_in / 32, row, k / 32).widen_spec().times_spec(
            whole::<A>(q8_code(qs, k_in, row, k)),
        ).times_spec(x[off + k].widen_spec())
}

/// The buffers hold `rows` rows of `k_in` columns.
pub open spec fn q8_fits<D>(qs: Seq<u32>, d: Seq<D>, k_in: int, rows: int) -> bool {
    &&& rows * (k_in / 32 * 8) <= qs.len()
    &&& rows * (k_in / 32) <= d.len()
}

/// One weight row against one stretch of activations, in units of `stride` columns.
pub(crate) struct Q8Row<'a, D, T> {
    pub qs: &'a [u32],
    pub d: &'a [D],
    pub x: &'a [T],
    pub off: usize,
    pub k_in: usize,
    pub row: usize,
    pub stride: usize,
    pub rows: Ghost<int>,
}

proof fn lemma_byte(w: u32, s: u32)
    by (bit_vector)
    ensures
        (w >> s) & 0xff <= 255,
{
}

/// Decodes byte `i` of a word.
pub(crate) fn byte_of(packed: u32, i: usize) -> (q: i32)
    requires
        i < 4,
    ensures
        q == signed_byte((packed >> ((i * 8) as u32)) & 0xff),
        -128 <= q <= 127,
{
    proof {
        lemma_byte(packed, (i * 8) as u32);
    }
    let by: u32 = (packed >> ((i * 8) as u32)) & 0xff;
    if by > 127 {
        by as i32 - 256
    } else {
        by as i32
    }
}

impl<'a, A: Scalar, D: Storage<A>, T: Storage<A>> LaneWork<A> for Q8Row<'a, D, T> {
    open spec fn ready(&self) -> bool {
        &&& q8_fits(self.qs@, self.d@, self.k_in as int, self.rows@)
        &&& self.row < self.rows@
        &&& self.stride == 4 || self.stride == 32
        &&& self.off + self.k_in as int / 32 * 32 <= self.x@.len()
    }

    open spec fn units(&self) -> int {
        if self.stride == 4 {
            self.k_in as int / 32 * 8
        } else {
            self.k_in as int / 32
        }
    }

    open spec fn unit(&self) -> int {
        self.stride as int
    }

    open spec fn terms(&self) -> spec_fn(int) -> A {
        q8_terms::<A, D, T>(
            self.qs@,
            self.d@,
            self.x@,
            self.off as int,
            self.k_in as int,
            self.row as int,
        )
    }

    fn accumulate(&self, acc: A, u: usize) -> (r: A) {
        let bpr: usize = self.k_in / 32;
        proof {
            if self.stride == 4 {
                assert(u * self.stride == u * 4);
            } else {
                assert(u * self.stride == u * 32);
            }
            assert(self.x@.len() == self.x.len());
        }
        let first: usize = u * self.stride;
        let d: A = read(self.d, self.rows, bpr, self.row, first / 32).widen();
        let mut acc = acc;
        let ghost start = acc;
        let mut i: usize = 0;
        while i < self.stride
            invariant
                self.ready(),
                bpr == self.k_in / 32,
                first == u * self.stride,
                first + self.stride <= bpr * 32,
                self.off + bpr * 32 <= usize::MAX,
                d == cell(
                    self.d@,
                    self.k_in as int / 32,
                    self.row as int,
                    first as int / 32,
                ).widen_spec(),
                i <= self.stride,
                acc == sum_from(start, first as int, i as int, self.terms()),
            decreases self.stride - i,
        {
            let k: usize = first + i;
            proof {
                lemma_same_block(u as int, self.stride as int, i as int);
            }
            let packed: u32 = read(self.qs, self.rows, bpr * 8, self.row, k / 4);
            let q: i32 = byte_of(packed, k % 4);
            acc = acc.plus(d.times(A::dyadic(q as i64, 0)).times(self.x[self.off + k].widen()));
            i = i + 1;
        }
        acc
    }
}

/// The columns of a unit share a block.
proof fn lemma_same_block(u: int, stride: int, i: int)
    requires
        0 <= u,
        stride == 4 || stride == 32,
        0 <= i < stride,
    ensures
        (u * stride + i) / 32 == (u * stride) / 32,
{
    if stride == 4 {
        assert(u * stride == u * 4);
        assert((u * 4 + i) / 32 == (u * 4) / 32);
    } else {
        assert(u * stride == u * 32);
    }
}

} // verus!
