//! Q4 rows: blocks of 32 signed nibbles under one scale, packed eight to a word.
use crate::scalar::{sum_from, whole, LaneWork, Scalar, Storage};
use crate::tensor::{cell, read};
use vstd::prelude::*;

verus! {

/// A nibble read as a two's complement integer.
pub open spec fn signed_nibble(nib: u32) -> int {
    if nib > 7 {
        nib - 16
    } else {
        nib as int
    }
}

/// The two's complement nibble of a code.
pub open spec fn nibble_of(q: int) -> u32 {
    if q < 0 {
        (q + 16) as u32
    } else {
        q as u32
    }
}

/// Eight codes packed into a word, the first one lowest.
pub open spec fn packed_word(q: Seq<int>) -> u32 {
    nibble_of(q[0]) | (nibble_of(q[1]) << 4) | (nibble_of(q[2]) << 8) | (nibble_of(q[3]) << 12) | (
    nibble_of(q[4]) << 16) | (nibble_of(q[5]) << 20) | (nibble_of(q[6]) << 24) | (nibble_of(q[7])
        << 28)
}

proof fn lemma_packed_nibbles(
    a: u32,
    b: u32,
    c: u32,
    d: u32,
    e: u32,
    f: u32,
    g: u32,
    h: u32,
)
    by (bit_vector)
    requires
        a < 16,
        b < 16,
        c < 16,
        d < 16,
        e < 16,
        f < 16,
        g < 16,
        h < 16,
    ensures
        ({
            let w = a | (b << 4) | (c << 8) | (d << 12) | (e << 16) | (f << 20) | (g << 24) | (h
                << 28);
            &&& (w >> 0) & 0xf == a
            &&& (w >> 4) & 0xf == b
            &&& (w >> 8) & 0xf == c
            &&& (w >> 12) & 0xf == d
            &&& (w >> 16) & 0xf == e
            &&& (w >> 20) & 0xf == f
            &&& (w >> 24) & 0xf == g
            &&& (w >> 28) & 0xf == h
        }),
{
}

/// Codes of a signed nibble come back from the word that they were packed into.
pub proof fn law_packed_codes_come_back(q: Seq<int>, n: int)
    requires
        q.len() == 8,
        forall|i: int| 0 <= i < 8 ==> -8 <= #[trigger] q[i] <= 7,
        0 <= n < 8,
    ensures
        signed_nibble((packed_word(q) >> ((n * 4) as u32)) & 0xf) == q[n],
{
    lemma_packed_nibbles(
        nibble_of(q[0]),
        nibble_of(q[1]),
        nibble_of(q[2]),
        nibble_of(q[3]),
        nibble_of(q[4]),
        nibble_of(q[5]),
        nibble_of(q[6]),
        nibble_of(q[7]),
    );
    if n < 4 {
        assert(n == 0 || n == 1 || n == 2 || n == 3);
    } else {
        assert(n == 4 || n == 5 || n == 6 || n == 7);
    }
}

/// Code `k` of row `row`.
pub open spec fn q4_code(qs: Seq<u32>, k_in: int, row: int, k: int) -> int {
    signed_nibble((cell(qs, k_in / 32 * 4, row, k / 8) >> (((k % 8) * 4) as u32)) & 0xf)
}

/// The products `q * x` of weight row `row` with the activations from `off` on.
pub open spec fn q4_products<A: Scalar, T: Storage<A>>(
    qs: Seq<u32>,
    x: Seq<T>,
    off: int,
    k_in: int,
    row: int,
) -> spec_fn(int) -> A {
    |k: int| whole::<A>(q4_code(qs, k_in, row, k)).times_spec(x[off + k].widen_spec())
}

/// The addends of a row taken `per` columns at a time: `d * (q . x)`.
pub open spec fn q4_terms<A: Scalar, D: Storage<A>, T: Storage<A>>(
    qs: Seq<u32>,
    d: Seq<D>,
    x: Seq<T>,
    off: int,
    k_in: int,
    row: int,
    per: int,
) -> spec_fn(int) -> A {
    |j: int|
        cell(d, k_in / 32, row, j * per / 32).widen_spec().times_spec(
            sum_from(
                whole::<A>(0),
                j * per,
                per,
                q4_products::<A, T>(qs, x, off, k_in, row),
            ),
        )
}

/// The addends of a row taken one by one: `(d * q) * x`.
pub open spec fn q4_single_terms<A: Scalar, D: Storage<A>, T: Storage<A>>(
    qs: Seq<u32>,
    d: Seq<D>,
    x: Seq<T>,
    off: int,
    k_in: int,
    row: int,
) -> spec_fn(int) -> A {
    |k: int|
        cell(d, k_in / 32, row, k / 32).widen_spec().times_spec(
            whole::<A>(q4_code(qs, k_in, row, k)),
        ).times_spec(x[off + k].widen_spec())
}

/// The buffers hold `rows` rows of `k_in` columns.
pub open spec fn q4_fits<D>(qs: Seq<u32>, d: Seq<D>, k_in: int, rows: int) -> bool {
    &&& rows * (k_in / 32 * 4) <= qs.len()
    &&& rows * (k_in / 32) <= d.len()
}

/// Row `row` is one of `rows`, and the activations from `off` on are there.
pub open spec fn q4_row_fits<D, T>(
    qs: Seq<u32>,
    d: Seq<D>,
    x: Seq<T>,
    off: int,
    k_in: int,
    row: int,
    rows: int,
) -> bool {
    &&& q4_fits(qs, d, k_in, rows)
    &&& row < rows
    &&& off + k_in / 32 * 32 <= x.len()
}

proof fn lemma_nibble(w: u32, s: u32)
    by (bit_vector)
    ensures
        (w >> s) & 0xf <= 15,
{
}

/// Decodes nibble `i` of a word.
pub(crate) fn nibble(packed: u32, i: usize) -> (q: i32)
    requires
        i < 8,
    ensures
        q == signed_nibble((packed >> ((i * 4) as u32)) & 0xf),
        -8 <= q <= 7,
{
    proof {
        lemma_nibble(packed, (i * 4) as u32);
    }
    let nib: u32 = (packed >> ((i * 4) as u32)) & 0xf;
    if nib > 7 {
        nib as i32 - 16
    } else {
        nib as i32
    }
}

/// One weight row against one stretch of activations.
pub(crate) struct Q4Row<'a, D, T> {
    pub qs: &'a [u32],
    pub d: &'a [D],
    pub x: &'a [T],
    pub off: usize,
    pub k_in: usize,
    pub row: usize,
    pub rows: Ghost<int>,
}

impl<'a, D, T> Q4Row<'a, D, T> {
    /// The dot product of columns `first..first + per`, which share a block.
    fn dot<A: Scalar>(&self, first: usize, per: usize) -> (r: A) where T: Storage<A>
        requires
            q4_row_fits(
                self.qs@,
                self.d@,
                self.x@,
                self.off as int,
                self.k_in as int,
                self.row as int,
                self.rows@,
            ),
            first + per <= self.k_in as int / 32 * 32,
        ensures
            r == sum_from(
                whole::<A>(0),
                first as int,
                per as int,
                q4_products::<A, T>(
                    self.qs@,
                    self.x@,
                    self.off as int,
                    self.k_in as int,
                    self.row as int,
                ),
            ),
    {
        let words: usize = self.k_in / 32 * 4;
        let mut blk: A = A::dyadic(0, 0);
        let mut i: usize = 0;
        assert(self.x@.len() == self.x.len());
        while i < per
            invariant
                q4_row_fits(
                self.qs@,
                self.d@,
                self.x@,
                self.off as int,
                self.k_in as int,
                self.row as int,
                self.rows@,
            ),
                words == self.k_in / 32 * 4,
                first + per <= self.k_in as int / 32 * 32,
                self.off + self.k_in as int / 32 * 32 <= usize::MAX,
                i <= per,
                blk == sum_from(
                    whole::<A>(0),
                    first as int,
                    i as int,
                    q4_products::<A, T>(
                        self.qs@,
                        self.x@,
                        self.off as int,
                        self.k_in as int,
                        self.row as int,
                    ),
                ),
            decreases per - i,
        {
            let k: usize = first + i;
            let packed: u32 = read(self.qs, self.rows, words, self.row, k / 8);
            let q: i32 = nibble(packed, k % 8);
            blk = blk.plus(A::dyadic(q as i64, 0).times(self.x[self.off + k].widen()));
            i = i + 1;
        }
        blk
    }
}

/// A row walked word by word, or block by block.
pub(crate) struct Q4Units<'a, D, T> {
    pub row: Q4Row<'a, D, T>,
    pub per: usize,
}

impl<'a, A: Scalar, D: Storage<A>, T: Storage<A>> LaneWork<A> for Q4Units<'a, D, T> {
    open spec fn ready(&self) -> bool {
        q4_row_fits(
                self.row.qs@,
                self.row.d@,
                self.row.x@,
                self.row.off as int,
                self.row.k_in as int,
                self.row.row as int,
                self.row.rows@,
            ) && (self.per == 8 || self.per == 32)
    }

    open spec fn units(&self) -> int {
        if self.per == 8 {
            self.row.k_in as int / 32 * 4
        } else {
            self.row.k_in as int / 32
        }
    }

    open spec fn unit(&self) -> int {
        1
    }

    open spec fn terms(&self) -> spec_fn(int) -> A {
        q4_terms::<A, D, T>(
            self.row.qs@,
            self.row.d@,
            self.row.x@,
            self.row.off as int,
            self.row.k_in as int,
            self.row.row as int,
            self.per as int,
        )
    }

    fn accumulate(&self, acc: A, u: usize) -> (r: A) {
        let row = &self.row;
        proof {
            if self.per == 8 {
                assert(u + 1 <= row.k_in as int / 32 * 4);
                assert(u * self.per == u * 8);
            } else {
                assert(u + 1 <= row.k_in as int / 32);
                assert(u * self.per == u * 32);
            }
            reveal_with_fuel(sum_from, 2);
        }
        let first: usize = u * self.per;
        let d: A = read(row.d, row.rows, row.k_in / 32, row.row, first / 32).widen();
        let blk: A = row.dot(first, self.per);
        let v = acc.plus(d.times(blk));
        assert(v == sum_from(acc, u as int, 1, self.terms()));
        assert(u * LaneWork::<A>::unit(self) == u) by (nonlinear_arith)
            requires
                LaneWork::<A>::unit(self) == 1,
        ;
        v
    }
}

/// A row walked word by word, with the scale inside every product.
pub(crate) struct Q4Singles<'a, D, T>(pub Q4Row<'a, D, T>);

impl<'a, A: Scalar, D: Storage<A>, T: Storage<A>> LaneWork<A> for Q4Singles<'a, D, T> {
    open spec fn ready(&self) -> bool {
        q4_row_fits(
                self.0.qs@,
                self.0.d@,
                self.0.x@,
                self.0.off as int,
                self.0.k_in as int,
                self.0.row as int,
                self.0.rows@,
            )
    }

    open spec fn units(&self) -> int {
        self.0.k_in as int / 32 * 4
    }

    open spec fn unit(&self) -> int {
        8
    }

    open spec fn terms(&self) -> spec_fn(int) -> A {
        q4_single_terms::<A, D, T>(
            self.0.qs@,
            self.0.d@,
            self.0.x@,
            self.0.off as int,
            self.0.k_in as int,
            self.0.row as int,
        )
    }

    fn accumulate(&self, acc: A, u: usize) -> (r: A) {
        let row = &self.0;
        let words: usize = row.k_in / 32 * 4;
        let packed: u32 = read(row.qs, row.rows, words, row.row, u);
        let d: A = read(row.d, row.rows, row.k_in / 32, row.row, u / 4).widen();
        let mut acc = acc;
        let ghost start = acc;
        let mut i: usize = 0;
        assert(row.x@.len() == row.x.len());
        while i < 8
            invariant
                row == &self.0,
                q4_row_fits(
                row.qs@,
                row.d@,
                row.x@,
                row.off as int,
                row.k_in as int,
                row.row as int,
                row.rows@,
            ),
                u < row.k_in as int / 32 * 4,
                row.off + row.k_in as int / 32 * 32 <= usize::MAX,
                packed == cell(row.qs@, row.k_in as int / 32 * 4, row.row as int, u as int),
                d == cell(row.d@, row.k_in as int / 32, row.row as int, u as int / 4).widen_spec(),
                i <= 8,
                acc == sum_from(start, u * 8, i as int, self.terms()),
            decreases 8 - i,
        {
            let k: usize = u * 8 + i;
            let q: i32 = nibble(packed, i);
            assert(k / 8 == u && k % 8 == i && k / 32 == u / 4);
            acc = acc.plus(d.times(A::dyadic(q as i64, 0)).times(row.x[row.off + k].widen()));
            i = i + 1;
        }
        acc
    }
}

} // verus!
