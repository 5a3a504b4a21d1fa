//! Dequantising GEMV kernels for int2 / int3 / int4 / int5 / int6 / int8 weights.
//!
//! Layouts, with `N = in_dim` and `G = group_size`:
//!
//! - `weight` `[out_dim, N * bits / 32]`, bit-packed words
//! - `scales`, `biases` `[out_dim, N / G]`
//! - `input` `[N]`, `output` `[out_dim]`
use crate::exact::{
    law_reduction_is_plain_sum, law_two_stage_reduction_is_plain_sum, lemma_sum_shift,
    lemma_sum_split, lemma_sum_start, lossless, plain_sum, two_stages,
};
use crate::primitives::{
    code_at, code_words, lemma_field, lemma_window_bound, read_code, window,
};
use crate::scalar::{
    group_sum, lane_sum, rounds, run_group, run_lane, sum_from, whole, LaneWork, Scalar, Storage,
};
use crate::tensor::{filled, lemma_flat};
use vstd::arithmetic::div_mod::{lemma_div_denominator, lemma_fundamental_div_mod};
use vstd::prelude::*;

verus! {

/// The products that make up output row `row`: column `k` contributes
/// `(q * scale + bias) * input[k]`, with the scale and bias of its group `k / group_size`.
pub open spec fn affine_terms<A: Scalar, T: Storage<A>>(
    bits: int,
    weight: Seq<u32>,
    scales: Seq<T>,
    biases: Seq<T>,
    input: Seq<T>,
    in_dim: int,
    group_size: int,
    row: int,
) -> spec_fn(int) -> A {
    |k: int|
        {
            let g = row * (in_dim / group_size) + k / group_size;
            whole::<A>(
                code_at(weight, row * (in_dim * bits / 32), bits, k) as int,
            ).times_spec(scales[g].widen_spec()).plus_spec(biases[g].widen_spec()).times_spec(
                input[k].widen_spec(),
            )
        }
}

/// `term`, started at `off`.
pub open spec fn after<A>(term: spec_fn(int) -> A, off: int) -> spec_fn(int) -> A {
    |i: int| term(off + i)
}

/// Output row `row` before it is narrowed.
pub open spec fn affine_row<A: Scalar, T: Storage<A>>(
    bits: int,
    weight: Seq<u32>,
    scales: Seq<T>,
    biases: Seq<T>,
    input: Seq<T>,
    in_dim: int,
    group_size: int,
    row: int,
    lanes: int,
) -> A {
    let terms = affine_terms::<A, T>(
        bits,
        weight,
        scales,
        biases,
        input,
        in_dim,
        group_size,
        row,
    );
    if 32int % bits == 0 {
        group_sum(lanes, in_dim / (32int / bits), 32int / bits, terms)
    } else if bits == 3 {
        A::lanes_sum_spec(
            Seq::new(
                lanes as nat,
                |lane: int| block_then_tail(in_dim, lanes, lane, terms),
            ),
        )
    } else {
        group_sum(lanes, in_dim, 1, terms)
    }
}

/// The outputs, row by row.
pub open spec fn affine_rows<A: Scalar, T: Storage<A>>(
    bits: int,
    weight: Seq<u32>,
    scales: Seq<T>,
    biases: Seq<T>,
    input: Seq<T>,
    in_dim: int,
    group_size: int,
    lanes: int,
) -> spec_fn(int) -> T {
    |row: int|
        T::narrow_spec(
            affine_row::<A, T>(
                bits,
                weight,
                scales,
                biases,
                input,
                in_dim,
                group_size,
                row,
                lanes,
            ),
        )
}

/// A lane's partial over whole blocks of 32 columns, then over the columns past them.
pub open spec fn block_then_tail<A: Scalar>(
    in_dim: int,
    lanes: int,
    lane: int,
    terms: spec_fn(int) -> A,
) -> A {
    let blocks = in_dim / 32;
    let tail = in_dim - blocks * 32;
    lane_sum(
        lane_sum(whole(0), rounds(blocks, lanes), lanes, lane, blocks, 32, terms),
        rounds(tail, lanes),
        lanes,
        lane,
        tail,
        1,
        after(terms, blocks * 32),
    )
}

/// The widths that a kernel exists for.
pub open spec fn affine_width(bits: int) -> bool {
    bits == 2 || bits == 3 || bits == 4 || bits == 5 || bits == 6 || bits == 8
}

/// The buffers hold `rows` rows.
pub open spec fn affine_fits<T>(
    bits: int,
    weight: Seq<u32>,
    scales: Seq<T>,
    biases: Seq<T>,
    input: Seq<T>,
    in_dim: int,
    group_size: int,
    rows: int,
) -> bool {
    &&& affine_width(bits)
    &&& group_size > 0
    &&& in_dim % group_size == 0
    &&& 32int % bits == 0 ==> group_size % (32int / bits) == 0
    &&& rows * (in_dim / group_size) <= scales.len()
    &&& rows * (in_dim / group_size) <= biases.len()
    &&& in_dim <= input.len()
    &&& if 32int % bits == 0 {
        rows * (in_dim * bits / 32) <= weight.len()
    } else {
        rows > 0 ==> (rows - 1) * (in_dim * bits / 32) + code_words(bits, in_dim) <= weight.len()
    }
}

/// The 32 codes of a block of three words.
fn int3_block(w0: u32, w1: u32, w2: u32) -> (q: Vec<u32>)
    ensures
        q@.len() == 32,
        forall|i: int| 0 <= i < 32 ==> #[trigger] q@[i] == code_at(seq![w0, w1, w2], 0, 3, i),
{
    let mask: u32 = 7;
    proof {
        lemma_int3(w0, w1, w2);
        assert(seq![w0, w1, w2][0] == w0 && seq![w0, w1, w2][1] == w1 && seq![w0, w1, w2][2] == w2);
    }
    let q: Vec<u32> = vec![
        w0 & mask,
        (w0 >> 3) & mask,
        (w0 >> 6) & mask,
        (w0 >> 9) & mask,
        (w0 >> 12) & mask,
        (w0 >> 15) & mask,
        (w0 >> 18) & mask,
        (w0 >> 21) & mask,
        (w0 >> 24) & mask,
        (w0 >> 27) & mask,
        ((w0 >> 30) & 3) | ((w1 & 1) << 2),
        (w1 >> 1) & mask,
        (w1 >> 4) & mask,
        (w1 >> 7) & mask,
        (w1 >> 10) & mask,
        (w1 >> 13) & mask,
        (w1 >> 16) & mask,
        (w1 >> 19) & mask,
        (w1 >> 22) & mask,
        (w1 >> 25) & mask,
        (w1 >> 28) & mask,
        ((w1 >> 31) & 1) | ((w2 & 3) << 1),
        (w2 >> 2) & mask,
        (w2 >> 5) & mask,
        (w2 >> 8) & mask,
        (w2 >> 11) & mask,
        (w2 >> 14) & mask,
        (w2 >> 17) & mask,
        (w2 >> 20) & mask,
        (w2 >> 23) & mask,
        (w2 >> 26) & mask,
        (w2 >> 29) & mask,
    ];
    q
}

proof fn lemma_int3(w0: u32, w1: u32, w2: u32)
    by (bit_vector)
    ensures
        w0 & 7 == window(w0, w0, 0, 3),
        (w0 >> 3) & 7 == window(w0, w0, 3, 3),
        (w0 >> 6) & 7 == window(w0, w0, 6, 3),
        (w0 >> 9) & 7 == window(w0, w0, 9, 3),
        (w0 >> 12) & 7 == window(w0, w0, 12, 3),
        (w0 >> 15) & 7 == window(w0, w0, 15, 3),
        (w0 >> 18) & 7 == window(w0, w0, 18, 3),
        (w0 >> 21) & 7 == window(w0, w0, 21, 3),
        (w0 >> 24) & 7 == window(w0, w0, 24, 3),
        (w0 >> 27) & 7 == window(w0, w0, 27, 3),
        ((w0 >> 30) & 3) | ((w1 & 1) << 2) == window(w0, w1, 30, 3),
        (w1 >> 1) & 7 == window(w1, w1, 1, 3),
        (w1 >> 4) & 7 == window(w1, w1, 4, 3),
        (w1 >> 7) & 7 == window(w1, w1, 7, 3),
        (w1 >> 10) & 7 == window(w1, w1, 10, 3),
        (w1 >> 13) & 7 == window(w1, w1, 13, 3),
        (w1 >> 16) & 7 == window(w1, w1, 16, 3),
        (w1 >> 19) & 7 == window(w1, w1, 19, 3),
        (w1 >> 22) & 7 == window(w1, w1, 22, 3),
        (w1 >> 25) & 7 == window(w1, w1, 25, 3),
        (w1 >> 28) & 7 == window(w1, w1, 28, 3),
        ((w1 >> 31) & 1) | ((w2 & 3) << 1) == window(w1, w2, 31, 3),
        (w2 >> 2) & 7 == window(w2, w2, 2, 3),
        (w2 >> 5) & 7 == window(w2, w2, 5, 3),
        (w2 >> 8) & 7 == window(w2, w2, 8, 3),
        (w2 >> 11) & 7 == window(w2, w2, 11, 3),
        (w2 >> 14) & 7 == window(w2, w2, 14, 3),
        (w2 >> 17) & 7 == window(w2, w2, 17, 3),
        (w2 >> 20) & 7 == window(w2, w2, 20, 3),
        (w2 >> 23) & 7 == window(w2, w2, 23, 3),
        (w2 >> 26) & 7 == window(w2, w2, 26, 3),
        (w2 >> 29) & 7 == window(w2, w2, 29, 3),
{
}

/// One output row with its buffers.
struct AffineRow<'a, T> {
    bits: u32,
    weight: &'a [u32],
    scales: &'a [T],
    biases: &'a [T],
    input: &'a [T],
    in_dim: usize,
    group_size: usize,
    row: usize,
    rows: Ghost<int>,
}

impl<'a, T> AffineRow<'a, T> {
    spec fn fits(&self) -> bool {
        &&& affine_fits(
            self.bits as int,
            self.weight@,
            self.scales@,
            self.biases@,
            self.input@,
            self.in_dim as int,
            self.group_size as int,
            self.rows@,
        )
        &&& self.row < self.rows@
        &&& self.in_dim * self.bits <= usize::MAX
    }

    spec fn products<A: Scalar>(&self) -> spec_fn(int) -> A where T: Storage<A> {
        affine_terms::<A, T>(
            self.bits as int,
            self.weight@,
            self.scales@,
            self.biases@,
            self.input@,
            self.in_dim as int,
            self.group_size as int,
            self.row as int,
        )
    }

    /// The scale and bias of group `g`.
    fn group<A: Scalar>(&self, g: usize) -> (r: (A, A)) where T: Storage<A>
        requires
            self.fits(),
            g < self.in_dim as int / self.group_size as int,
        ensures
            r.0 == self.scales@[self.row * (self.in_dim as int / self.group_size as int)
                + g].widen_spec(),
            r.1 == self.biases@[self.row * (self.in_dim as int / self.group_size as int)
                + g].widen_spec(),
    {
        let n_groups: usize = self.in_dim / self.group_size;
        proof {
            lemma_flat(self.rows@, n_groups as int, self.row as int, g as int);
            assert(self.scales@.len() == self.scales.len());
        }
        let i: usize = self.row * n_groups + g;
        (self.scales[i].widen(), self.biases[i].widen())
    }

    /// The first word of the row.
    fn base(&self) -> (r: usize)
        requires
            self.fits(),
        ensures
            r == self.row * (self.in_dim * self.bits / 32),
            32int % self.bits as int == 0 ==> r + self.in_dim * self.bits / 32
                <= self.weight@.len(),
            32int % self.bits as int != 0 ==> r + code_words(self.bits as int, self.in_dim as int)
                <= self.weight@.len(),
    {
        proof {
            assert(0 <= self.in_dim * self.bits) by (nonlinear_arith);
            assert(self.weight@.len() == self.weight.len());
        }
        let per_row: usize = self.in_dim * (self.bits as usize) / 32;
        proof {
            assert(self.row * per_row <= (self.rows@ - 1) * per_row) by (nonlinear_arith)
                requires
                    self.row <= self.rows@ - 1,
                    0 <= per_row,
            ;
            assert((self.rows@ - 1) * per_row + per_row == self.rows@ * per_row)
                by (nonlinear_arith);
        }
        self.row * per_row
    }

    /// Adds the product of column `k`, whose code is `q`.
    fn step<A: Scalar>(&self, acc: A, q: u32, group: (A, A), k: usize) -> (r: A) where
        T: Storage<A>,

        requires
            k < self.input@.len(),
            q < 256,
        ensures
            r == acc.plus_spec(
                whole::<A>(q as int).times_spec(group.0).plus_spec(group.1).times_spec(
                    self.input@[k as int].widen_spec(),
                ),
            ),
    {
        acc.plus(A::dyadic(q as i64, 0).times(group.0).plus(group.1).times(self.input[k].widen()))
    }
}

/// A row read word by word.
struct Packs<'a, T>(AffineRow<'a, T>);

impl<'a, A: Scalar, T: Storage<A>> LaneWork<A> for Packs<'a, T> {
    closed spec fn ready(&self) -> bool {
        self.0.fits() && 32int % self.0.bits as int == 0
    }

    closed spec fn units(&self) -> int {
        self.0.in_dim as int / (32int / self.0.bits as int)
    }

    closed spec fn unit(&self) -> int {
        32int / self.0.bits as int
    }

    closed spec fn terms(&self) -> spec_fn(int) -> A {
        self.0.products()
    }

    fn accumulate(&self, acc: A, u: usize) -> (r: A) {
        let row = &self.0;
        let bits: u32 = row.bits;
        let vals: usize = 32 / (bits as usize);
        proof {
            lemma_field(0, 0, bits);
            lemma_groups(row.in_dim as int, row.group_size as int, vals as int, u as int);
            lemma_pack(bits as int, row.in_dim as int, u as int, 0);
            assert(row.weight@.len() == row.weight.len());
        }
        let mask: u32 = (1u32 << bits) - 1u32;
        let packs_per_group: usize = row.group_size / vals;
        let group = row.group(u / packs_per_group);
        let base: usize = row.base();
        let packed: u32 = row.weight[base + u];
        let mut acc = acc;
        let ghost start = acc;
        let mut i: usize = 0;
        while i < vals
            invariant
                self.ready(),
                row == &self.0,
                bits == row.bits,
                vals == 32int / bits as int,
                mask == ((1u32 << bits) - 1) as u32,
                u < self.units(),
                base == row.row * (row.in_dim * bits / 32),
                packed == row.weight@[base + u],
                u * vals + vals <= row.in_dim,
                group.0 == row.scales@[row.row * (row.in_dim as int / row.group_size as int) + (
                u as int) / (row.group_size as int / vals as int)].widen_spec(),
                group.1 == row.biases@[row.row * (row.in_dim as int / row.group_size as int) + (
                u as int) / (row.group_size as int / vals as int)].widen_spec(),
                i <= vals,
                acc == sum_from(start, u * vals, i as int, self.terms()),
            decreases vals - i,
        {
            proof {
                lemma_pack(bits as int, row.in_dim as int, u as int, i as int);
                lemma_groups(row.in_dim as int, row.group_size as int, vals as int, u as int);
                lemma_own_group(row.group_size as int, vals as int, u * vals + i);
                lemma_field(packed, (i * bits) as u32, bits);
                lemma_window_bound(packed, packed, (i * bits) as u32, bits);
            }
            let q: u32 = (packed >> ((i as u32) * bits)) & mask;
            acc = row.step(acc, q, group, u * vals + i);
            i = i + 1;
        }
        acc
    }
}

/// A row of 3-bit codes read in blocks of three words.
struct Blocks<'a, T>(AffineRow<'a, T>);

impl<'a, A: Scalar, T: Storage<A>> LaneWork<A> for Blocks<'a, T> {
    closed spec fn ready(&self) -> bool {
        self.0.fits() && self.0.bits == 3
    }

    closed spec fn units(&self) -> int {
        self.0.in_dim as int / 32
    }

    closed spec fn unit(&self) -> int {
        32
    }

    closed spec fn terms(&self) -> spec_fn(int) -> A {
        self.0.products()
    }

    fn accumulate(&self, acc: A, u: usize) -> (r: A) {
        let row = &self.0;
        let d0: usize = u * 32;
        proof {
            assert(row.weight@.len() == row.weight.len());
        }
        let base: usize = row.base();
        let q = int3_block(
            row.weight[base + u * 3],
            row.weight[base + u * 3 + 1],
            row.weight[base + u * 3 + 2],
        );
        let mut acc = acc;
        let ghost start = acc;
        let ghost words = seq![
            row.weight@[base + u * 3],
            row.weight@[base + u * 3 + 1],
            row.weight@[base + u * 3 + 2],
        ];
        let mut i: usize = 0;
        while i < 32
            invariant
                self.ready(),
                row == &self.0,
                u < self.units(),
                d0 == u * 32,
                base == row.row * (row.in_dim * row.bits / 32),
                q@.len() == 32,
                forall|i: int| 0 <= i < 32 ==> #[trigger] q@[i] == code_at(words, 0, 3, i),
                words == seq![
                    row.weight@[base + u * 3],
                    row.weight@[base + u * 3 + 1],
                    row.weight@[base + u * 3 + 2],
                ],
                i <= 32,
                acc == sum_from(start, d0 as int, i as int, self.terms()),
            decreases 32 - i,
        {
            proof {
                let k = d0 + i;
                let at = (i * 3) / 32;
                assert((k * 3) / 32 == u * 3 + at && (k * 3) % 32 == (i * 3) % 32);
                assert(words[at] == row.weight@[base + u * 3 + at]);
                assert(at < 2 ==> words[at + 1] == row.weight@[base + u * 3 + at + 1]);
                assert(q@[i as int] == code_at(row.weight@, base as int, 3, k));
                lemma_window_bound(
                    words[at],
                    if (i * 3) % 32 + 3 > 32 {
                        words[at + 1]
                    } else {
                        words[at]
                    },
                    ((i * 3) % 32) as u32,
                    3,
                );
                lemma_group_in(row.in_dim as int, row.group_size as int, k);
            }
            let group = row.group((d0 + i) / row.group_size);
            acc = row.step(acc, q[i], group, d0 + i);
            i = i + 1;
        }
        acc
    }
}

/// The columns of a row from `off` on, read one by one.
struct Columns<'a, T> {
    row: AffineRow<'a, T>,
    off: usize,
}

impl<'a, A: Scalar, T: Storage<A>> LaneWork<A> for Columns<'a, T> {
    closed spec fn ready(&self) -> bool {
        &&& self.row.fits()
        &&& 32int % self.row.bits as int != 0
        &&& self.off <= self.row.in_dim
        &&& self.row.bits == 3 ==> self.off == self.row.in_dim as int / 32 * 32
    }

    closed spec fn units(&self) -> int {
        self.row.in_dim - self.off
    }

    closed spec fn unit(&self) -> int {
        1
    }

    closed spec fn terms(&self) -> spec_fn(int) -> A {
        after(self.row.products(), self.off as int)
    }

    fn accumulate(&self, acc: A, u: usize) -> (r: A) {
        let row = &self.row;
        let d: usize = self.off + u;
        let g: usize = d / row.group_size;
        proof {
            lemma_group_in(row.in_dim as int, row.group_size as int, d as int);
        }
        let group = row.group(g);
        let base: usize = row.base();
        let q: u32 = read_code(row.weight, base, row.bits, d, Ghost(row.in_dim as int));
        proof {
            let bits = row.bits as int;
            let at = base + (d * bits) / 32;
            let s = (d * bits) % 32;
            lemma_window_bound(
                row.weight@[at],
                if s + bits > 32 {
                    row.weight@[at + 1]
                } else {
                    row.weight@[at]
                },
                s as u32,
                row.bits,
            );
            reveal_with_fuel(sum_from, 2);
        }
        row.step(acc, q, group, d)
    }
}

/// A column's group is one of the row's.
pub proof fn lemma_group_in(in_dim: int, group_size: int, k: int)
    requires
        group_size > 0,
        in_dim % group_size == 0,
        0 <= k < in_dim,
    ensures
        0 <= k / group_size < in_dim / group_size,
{
    lemma_fundamental_div_mod(in_dim, group_size);
    let groups = in_dim / group_size;
    assert(0 <= k / group_size < groups) by (nonlinear_arith)
        requires
            0 <= k < in_dim,
            in_dim == group_size * groups,
            group_size > 0,
    ;
}

/// The first column of a pack of `vals` columns lies in the group of the others, where packs divide
/// the groups.
pub(crate) proof fn lemma_own_group(group_size: int, vals: int, k: int)
    requires
        0 < vals,
        0 < group_size,
        group_size % vals == 0,
        0 <= k,
    ensures
        (k / vals * vals) / group_size == k / group_size,
{
    let per = group_size / vals;
    lemma_fundamental_div_mod(group_size, vals);
    assert(per > 0) by (nonlinear_arith)
        requires
            group_size == vals * per,
            group_size > 0,
            vals > 0,
    ;
    let first = k / vals * vals;
    lemma_div_denominator(k, vals, per);
    vstd::arithmetic::div_mod::lemma_div_pos_is_pos(k, vals);
    assert(0 <= first && first / vals == k / vals) by (nonlinear_arith)
        requires
            first == k / vals * vals,
            0 <= k / vals,
            vals > 0,
    ;
    lemma_div_denominator(first, vals, per);
}

/// Dequantising GEMV for 2-, 3-, 4-, 5-, 6- and 8-bit codes: one threadgroup of `lsize`
/// lanes per output row, over `out_dim` rows.
#[allow(clippy::too_many_arguments)]
#[verifier::loop_isolation(false)]
pub fn iron_dequant_gemv<A: Scalar, T: Storage<A>>(
    bits: u32,
    weight: &[u32],
    scales: &[T],
    biases: &[T],
    input: &[T],
    output: &mut Vec<T>,
    in_dim: u32,
    group_size: u32,
    out_dim: u32,
    lsize: u32,
)
    requires
        affine_fits(
            bits as int,
            weight@,
            scales@,
            biases@,
            input@,
            in_dim as int,
            group_size as int,
            out_dim as int,
        ),
        lsize > 0,
        in_dim * bits <= u32::MAX,
        in_dim + lsize <= u32::MAX,
        out_dim <= old(output)@.len(),
    ensures
        filled(
            old(output)@,
            final(output)@,
            out_dim as int,
            affine_rows::<A, T>(
                bits as int,
                weight@,
                scales@,
                biases@,
                input@,
                in_dim as int,
                group_size as int,
                lsize as int,
            ),
        ),
{
    let ghost before = output@;
    let ghost value = affine_rows::<A, T>(
        bits as int,
        weight@,
        scales@,
        biases@,
        input@,
        in_dim as int,
        group_size as int,
        lsize as int,
    );
    let n: usize = in_dim as usize;
    let lanes: usize = lsize as usize;
    let mut row: usize = 0;
    while row < out_dim as usize
        invariant
            row <= out_dim,
            filled(before, output@, row as int, value),
        decreases out_dim - row,
    {
        let this = AffineRow {
            bits,
            weight,
            scales,
            biases,
            input,
            in_dim: n,
            group_size: group_size as usize,
            row,
            rows: Ghost(out_dim as int),
        };
        let total: A = if 32 % bits == 0 {
            run_group(&Packs(this), n / (32 / (bits as usize)), lanes)
        } else if bits == 3 {
            int3_row(this, n, lanes)
        } else {
            run_group(&Columns { row: this, off: 0 }, n, lanes)
        };
        proof {
            let products = this.products::<A>();
            assert(after(products, 0) =~= products);
        }
        output[row] = T::narrow(total);
        row = row + 1;
    }
}

/// A row of 3-bit codes: whole blocks first, then the columns past them.
fn int3_row<'a, A: Scalar, T: Storage<A>>(this: AffineRow<'a, T>, n: usize, lanes: usize) -> (r: A)
    requires
        this.fits(),
        this.bits == 3,
        n == this.in_dim,
        lanes > 0,
        n + lanes <= usize::MAX,
    ensures
        r == A::lanes_sum_spec(
            Seq::new(
                lanes as nat,
                |lane: int| block_then_tail(n as int, lanes as int, lane, this.products()),
            ),
        ),
{
    let blocks: usize = n / 32;
    let first = Blocks(
        AffineRow {
            bits: this.bits,
            weight: this.weight,
            scales: this.scales,
            biases: this.biases,
            input: this.input,
            in_dim: this.in_dim,
            group_size: this.group_size,
            row: this.row,
            rows: this.rows,
        },
    );
    let rest = Columns { row: this, off: blocks * 32 };
    let mut parts: Vec<A> = Vec::new();
    let mut lane: usize = 0;
    while lane < lanes
        invariant
            first.ready(),
            rest.ready(),
            first.0.products::<A>() == this.products::<A>(),
            rest.row.products::<A>() == this.products::<A>(),
            n == this.in_dim,
            first.0.in_dim == n,
            rest.row.in_dim == n,
            rest.off == blocks * 32,
            blocks == n / 32,
            n + lanes <= usize::MAX,
            lane <= lanes,
            parts@.len() == lane,
            forall|l: int|
                0 <= l < lane ==> #[trigger] parts@[l] == block_then_tail(
                    n as int,
                    lanes as int,
                    l,
                    this.products::<A>(),
                ),
        decreases lanes - lane,
    {
        let mid: A = run_lane(&first, A::dyadic(0, 0), blocks, lanes, lane);
        let p: A = run_lane(&rest, mid, n - blocks * 32, lanes, lane);
        parts.push(p);
        lane = lane + 1;
    }
    assert(parts@ =~= Seq::new(
        lanes as nat,
        |lane: int| block_then_tail(n as int, lanes as int, lane, this.products::<A>()),
    ));
    A::lanes_sum(&parts)
}

/// Packs of `vals` columns that divide the groups number as the groups do.
pub proof fn lemma_groups(in_dim: int, group_size: int, vals: int, u: int)
    requires
        vals > 0,
        group_size > 0,
        in_dim % group_size == 0,
        group_size % vals == 0,
        0 <= u < in_dim / vals,
    ensures
        group_size / vals > 0,
        u / (group_size / vals) < in_dim / group_size,
        u / (group_size / vals) == (u * vals) / group_size,
        u * vals + vals <= in_dim,
{
    let per = group_size / vals;
    lemma_fundamental_div_mod(group_size, vals);
    lemma_fundamental_div_mod(in_dim, group_size);
    lemma_fundamental_div_mod(in_dim, vals);
    assert(per > 0) by (nonlinear_arith)
        requires
            group_size == vals * per,
            group_size > 0,
            vals > 0,
    ;
    lemma_div_denominator(u * vals, vals, per);
    assert((u * vals) / vals == u) by (nonlinear_arith)
        requires
            vals > 0,
    ;
    let n = in_dim / vals;
    assert(u * vals + vals <= n * vals) by (nonlinear_arith)
        requires
            u + 1 <= n,
            vals > 0,
    ;
    assert(n * vals == vals * n) by (nonlinear_arith);
    let groups = in_dim / group_size;
    assert((u * vals) / group_size < groups) by (nonlinear_arith)
        requires
            u * vals < in_dim,
            in_dim == group_size * groups,
            group_size > 0,
    ;
}

/// Where code `i` of pack `u` lies, for widths that divide a word.
pub proof fn lemma_pack(bits: int, in_dim: int, u: int, i: int)
    requires
        bits == 2 || bits == 4 || bits == 8,
        0 <= u,
        0 <= i < 32int / bits,
        0 <= in_dim,
    ensures
        in_dim * bits / 32 == in_dim / (32int / bits),
        ((u * (32int / bits) + i) * bits) / 32 == u,
        ((u * (32int / bits) + i) * bits) % 32 == i * bits,
        (u * (32int / bits) + i) / (32int / bits) == u,
        i * bits + bits <= 32,
{
    if bits == 2 {
        assert(32int / bits == 16);
    } else if bits == 4 {
        assert(32int / bits == 8);
    } else {
        assert(32int / bits == 4);
    }
}

/// In exact arithmetic an output is the plain dot product of the decoded row,
/// `sum_k (q * scale + bias) * input[k]`.
#[allow(clippy::too_many_arguments)]
pub proof fn law_affine_row_is_plain_sum<A: Scalar, T: Storage<A>>(
    bits: int,
    weight: Seq<u32>,
    scales: Seq<T>,
    biases: Seq<T>,
    input: Seq<T>,
    in_dim: int,
    group_size: int,
    row: int,
    lanes: int,
)
    requires
        lossless::<A>(),
        affine_width(bits),
        32int % bits == 0 ==> in_dim % (32int / bits) == 0,
        0 <= in_dim,
        lanes > 0,
    ensures
        affine_row::<A, T>(
            bits,
            weight,
            scales,
            biases,
            input,
            in_dim,
            group_size,
            row,
            lanes,
        ) == plain_sum(
            in_dim,
            affine_terms::<A, T>(
                bits,
                weight,
                scales,
                biases,
                input,
                in_dim,
                group_size,
                row,
            ),
        ),
{
    let terms = affine_terms::<A, T>(
        bits,
        weight,
        scales,
        biases,
        input,
        in_dim,
        group_size,
        row,
    );
    if 32int % bits == 0 {
        let vals = 32int / bits;
        vstd::arithmetic::div_mod::lemma_fundamental_div_mod(in_dim, vals);
        vstd::arithmetic::div_mod::lemma_div_pos_is_pos(in_dim, vals);
        assert(in_dim / vals * vals == vals * (in_dim / vals)) by (nonlinear_arith);
        law_reduction_is_plain_sum(lanes, in_dim / vals, vals, terms);
    } else if bits == 3 {
        let blocks = in_dim / 32;
        let tail = in_dim - blocks * 32;
        let rest = after(terms, blocks * 32);
        law_two_stage_reduction_is_plain_sum(lanes, blocks, 32, terms, tail, 1, rest);
        assert(Seq::new(lanes as nat, |lane: int| block_then_tail(in_dim, lanes, lane, terms))
            =~= Seq::new(
            lanes as nat,
            |lane: int| two_stages(lanes, lane, blocks, 32, terms, tail, 1, rest),
        ));
        lemma_sum_shift(whole(0), 0, tail, blocks * 32, rest, terms);
        lemma_sum_split(whole::<A>(0), 0, blocks * 32, tail, terms);
        lemma_sum_start(sum_from(whole(0), 0, blocks * 32, terms), blocks * 32, tail, terms);
        assert(tail * 1 == tail);
    } else {
        law_reduction_is_plain_sum(lanes, in_dim, 1, terms);
        assert(in_dim * 1 == in_dim);
    }
}

} // verus!
