//! Dequantising GEMV, eight output rows per threadgroup.
//!
//! Two simdgroups of 32 lanes own four rows each; a lane takes 16 columns of every
//! 512-column block and splits the affine decode: `scale * (q . x) + bias * sum(x)`.
use crate::exact::{
    law_reduction_is_plain_sum, lemma_affine_product, lemma_scaled_product, lemma_shifted_whole,
    lemma_sum_factor, lemma_sum_from_first, lemma_sum_pairs, lemma_sum_same, lemma_sum_shift,
    lemma_units, lossless, plain_sum, unit_sums,
};
use crate::gemm::dequant_gemv::{affine_terms, lemma_group_in, lemma_own_group};
use crate::primitives::{code_at, lemma_field, lemma_window_bound};
use crate::scalar::{group_sum, run_group, sum_from, whole, LaneWork, Scalar, Storage};
use crate::tensor::{filled, read};
use vstd::prelude::*;

verus! {

/// `term(0) + term(1) + ... + term(n - 1)`, added from the left.
pub open spec fn sum_of<A: Scalar>(n: int, term: spec_fn(int) -> A) -> A {
    sum_from(term(0), 1, n - 1, term)
}

/// The 16 activations of chunk `u`.
pub open spec fn chunk_inputs<A: Scalar, T: Storage<A>>(input: Seq<T>, u: int) -> spec_fn(
    int,
) -> A {
    |j: int| input[u * 16 + j].widen_spec()
}

/// The 16 products of chunk `u` with 2-bit codes.
pub open spec fn int2_products<A: Scalar, T: Storage<A>>(
    weight: Seq<u32>,
    input: Seq<T>,
    in_dim: int,
    row: int,
    u: int,
) -> spec_fn(int) -> A {
    |j: int|
        whole::<A>(code_at(weight, row * (in_dim * 2 / 32), 2, u * 16 + j) as int).times_spec(
            input[u * 16 + j].widen_spec(),
        )
}

/// The nibble in slot `slot` of the low half of `w`, left where it stands.
pub open spec fn unshifted_nibble(w: u32, slot: int) -> u32 {
    if slot == 0 {
        w & 15
    } else if slot == 1 {
        w & 240
    } else if slot == 2 {
        w & 3840
    } else {
        w & 61440
    }
}

/// An activation scaled down by the place of the nibble that it meets.
pub open spec fn slot_scaled<A: Scalar>(x: A, slot: int) -> A {
    if slot == 0 {
        x
    } else {
        x.times_spec(A::dyadic_spec(1, -4 * slot))
    }
}

/// The 16 products of chunk `u` with 4-bit codes, nibbles left where they stand.
pub open spec fn int4_products<A: Scalar, T: Storage<A>>(
    weight: Seq<u32>,
    input: Seq<T>,
    in_dim: int,
    row: int,
    u: int,
) -> spec_fn(int) -> A {
    |j: int|
        {
            let w = weight[row * (in_dim * 4 / 32) + u * 2 + j / 8];
            let half = if j % 8 < 4 {
                w
            } else {
                w >> 16
            };
            whole::<A>(unshifted_nibble(half, j % 4) as int).times_spec(
                slot_scaled(input[u * 16 + j].widen_spec(), j % 4),
            )
        }
}

/// Both addends of every chunk of a row: `scale * (q . x)`, then `bias * sum(x)`.
pub open spec fn split_terms<A: Scalar, T: Storage<A>>(
    bits: int,
    weight: Seq<u32>,
    scales: Seq<T>,
    biases: Seq<T>,
    input: Seq<T>,
    in_dim: int,
    group_size: int,
    row: int,
) -> spec_fn(int) -> A {
    |k: int|
        {
            let u = k / 2;
            let g = row * (in_dim / group_size) + (u * 16) / group_size;
            if k % 2 == 0 {
                scales[g].widen_spec().times_spec(
                    sum_of(
                        16,
                        if bits == 2 {
                            int2_products::<A, T>(weight, input, in_dim, row, u)
                        } else {
                            int4_products::<A, T>(weight, input, in_dim, row, u)
                        },
                    ),
                )
            } else {
                biases[g].widen_spec().times_spec(sum_of(16, chunk_inputs::<A, T>(input, u)))
            }
        }
}

/// A weight row's dot product before it is narrowed.
pub open spec fn split_row<A: Scalar, T: Storage<A>>(
    bits: int,
    weight: Seq<u32>,
    scales: Seq<T>,
    biases: Seq<T>,
    input: Seq<T>,
    in_dim: int,
    group_size: int,
    row: int,
) -> A {
    group_sum(
        32,
        in_dim / 16,
        2,
        split_terms::<A, T>(bits, weight, scales, biases, input, in_dim, group_size, row),
    )
}

/// The outputs, row by row.
pub open spec fn split_rows<A: Scalar, T: Storage<A>>(
    bits: int,
    weight: Seq<u32>,
    scales: Seq<T>,
    biases: Seq<T>,
    input: Seq<T>,
    in_dim: int,
    group_size: int,
) -> spec_fn(int) -> T {
    |row: int|
        T::narrow_spec(
            split_row::<A, T>(bits, weight, scales, biases, input, in_dim, group_size, row),
        )
}

/// The outputs of a gathered list of rows.
pub open spec fn gathered_rows<A: Scalar, T: Storage<A>>(
    weight: Seq<u32>,
    scales: Seq<T>,
    biases: Seq<T>,
    row_indices: Seq<u32>,
    input: Seq<T>,
    in_dim: int,
    group_size: int,
) -> spec_fn(int) -> T {
    |i: int|
        T::narrow_spec(
            split_row::<A, T>(
                4,
                weight,
                scales,
                biases,
                input,
                in_dim,
                group_size,
                row_indices[i] as int,
            ),
        )
}

/// The buffers hold `rows` rows in the layout that the fast kernels take: a chunk of 16 columns
/// lies in one group.
pub open spec fn split_fits<T>(
    bits: int,
    weight: Seq<u32>,
    scales: Seq<T>,
    biases: Seq<T>,
    input: Seq<T>,
    in_dim: int,
    group_size: int,
    rows: int,
) -> bool {
    &&& in_dim % 512 == 0
    &&& group_size > 0
    &&& group_size % 16 == 0
    &&& in_dim % group_size == 0
    &&& rows * (in_dim * bits / 32) <= weight.len()
    &&& rows * (in_dim / group_size) <= scales.len()
    &&& rows * (in_dim / group_size) <= biases.len()
    &&& in_dim <= input.len()
}

struct SplitRow<'a, T> {
    bits: u32,
    weight: &'a [u32],
    scales: &'a [T],
    biases: &'a [T],
    input: &'a [T],
    in_dim: usize,
    group_size: usize,
    row: usize,
    rows: Ghost<int>,
}

/// Adds 16 values from the left.
fn add_up<A: Scalar>(xs: &Vec<A>, term: Ghost<spec_fn(int) -> A>) -> (r: A)
    requires
        xs@.len() == 16,
        forall|j: int| 0 <= j < 16 ==> #[trigger] xs@[j] == (term@)(j),
    ensures
        r == sum_of(16, term@),
{
    let mut acc = xs[0];
    let mut j: usize = 1;
    while j < 16
        invariant
            xs@.len() == 16,
            forall|j: int| 0 <= j < 16 ==> #[trigger] xs@[j] == (term@)(j),
            1 <= j <= 16,
            acc == sum_from((term@)(0), 1, j - 1, term@),
        decreases 16 - j,
    {
        acc = acc.plus(xs[j]);
        j = j + 1;
    }
    acc
}

impl<'a, T> SplitRow<'a, T> {
    spec fn fits(&self) -> bool {
        &&& self.bits == 2 || self.bits == 4
        &&& split_fits(
            self.bits as int,
            self.weight@,
            self.scales@,
            self.biases@,
            self.input@,
            self.in_dim as int,
            self.group_size as int,
            self.rows@,
        )
        &&& self.row < self.rows@
    }

    /// The activations of chunk `u`.
    fn activations<A: Scalar>(&self, u: usize) -> (xs: Vec<A>) where T: Storage<A>
        requires
            self.fits(),
            u < self.in_dim as int / 16,
        ensures
            xs@.len() == 16,
            forall|j: int|
                0 <= j < 16 ==> #[trigger] xs@[j] == self.input@[u * 16 + j].widen_spec(),
    {
        let mut xs: Vec<A> = Vec::new();
        let mut j: usize = 0;
        while j < 16
            invariant
                self.fits(),
                u < self.in_dim as int / 16,
                j <= 16,
                xs@.len() == j,
                forall|i: int|
                    0 <= i < j ==> #[trigger] xs@[i] == self.input@[u * 16 + i].widen_spec(),
            decreases 16 - j,
        {
            xs.push(self.input[u * 16 + j].widen());
            j = j + 1;
        }
        xs
    }

    /// The dot product of chunk `u` with 2-bit codes.
    fn int2_dot<A: Scalar>(&self, u: usize, xs: &Vec<A>) -> (r: A) where T: Storage<A>
        requires
            self.fits(),
            self.bits == 2,
            u < self.in_dim as int / 16,
            xs@.len() == 16,
            forall|j: int|
                0 <= j < 16 ==> #[trigger] xs@[j] == self.input@[u * 16 + j].widen_spec(),
        ensures
            r == sum_of(
                16,
                int2_products::<A, T>(
                    self.weight@,
                    self.input@,
                    self.in_dim as int,
                    self.row as int,
                    u as int,
                ),
            ),
    {
        let ghost term = int2_products::<A, T>(
            self.weight@,
            self.input@,
            self.in_dim as int,
            self.row as int,
            u as int,
        );
        let packed: u32 = read(self.weight, self.rows, self.in_dim / 16, self.row, u);
        let mut ps: Vec<A> = Vec::new();
        let mut j: usize = 0;
        while j < 16
            invariant
                self.fits(),
                self.bits == 2,
                u < self.in_dim as int / 16,
                packed == self.weight@[self.row * (self.in_dim as int / 16) + u],
                xs@.len() == 16,
                forall|j: int|
                    0 <= j < 16 ==> #[trigger] xs@[j] == self.input@[u * 16 + j].widen_spec(),
                j <= 16,
                ps@.len() == j,
                term == int2_products::<A, T>(
                    self.weight@,
                    self.input@,
                    self.in_dim as int,
                    self.row as int,
                    u as int,
                ),
                forall|i: int| 0 <= i < j ==> #[trigger] ps@[i] == term(i),
            decreases 16 - j,
        {
            proof {
                lemma_field(packed, (2 * j) as u32, 2);
                lemma_window_bound(packed, packed, (2 * j) as u32, 2);
                assert(1u32 << 2u32 == 4) by (bit_vector);
            }
            let q: u32 = (packed >> (2 * (j as u32))) & 3;
            ps.push(A::dyadic(q as i64, 0).times(xs[j]));
            j = j + 1;
        }
        add_up(&ps, Ghost(term))
    }

    /// The dot product of chunk `u` with 4-bit codes: activations in slots 1, 2 and 3 are
    /// scaled down once, and the nibbles are masked out without a shift.
    fn int4_dot<A: Scalar>(&self, u: usize, xs: &Vec<A>) -> (r: A) where T: Storage<A>
        requires
            self.fits(),
            self.bits == 4,
            u < self.in_dim as int / 16,
            xs@.len() == 16,
            forall|j: int|
                0 <= j < 16 ==> #[trigger] xs@[j] == self.input@[u * 16 + j].widen_spec(),
        ensures
            r == sum_of(
                16,
                int4_products::<A, T>(
                    self.weight@,
                    self.input@,
                    self.in_dim as int,
                    self.row as int,
                    u as int,
                ),
            ),
    {
        let ghost term = int4_products::<A, T>(
            self.weight@,
            self.input@,
            self.in_dim as int,
            self.row as int,
            u as int,
        );
        let s16 = A::dyadic(1, -4);
        let s256 = A::dyadic(1, -8);
        let s4096 = A::dyadic(1, -12);
        let lo: u32 = read(self.weight, self.rows, self.in_dim / 8, self.row, u * 2);
        let hi: u32 = read(self.weight, self.rows, self.in_dim / 8, self.row, u * 2 + 1);
        let mut ps: Vec<A> = Vec::new();
        let mut j: usize = 0;
        while j < 16
            invariant
                self.fits(),
                self.bits == 4,
                u < self.in_dim as int / 16,
                s16 == A::dyadic_spec(1, -4),
                s256 == A::dyadic_spec(1, -8),
                s4096 == A::dyadic_spec(1, -12),
                lo == self.weight@[self.row * (self.in_dim as int / 8) + u * 2],
                hi == self.weight@[self.row * (self.in_dim as int / 8) + u * 2 + 1],
                xs@.len() == 16,
                forall|j: int|
                    0 <= j < 16 ==> #[trigger] xs@[j] == self.input@[u * 16 + j].widen_spec(),
                j <= 16,
                ps@.len() == j,
                term == int4_products::<A, T>(
                    self.weight@,
                    self.input@,
                    self.in_dim as int,
                    self.row as int,
                    u as int,
                ),
                forall|i: int| 0 <= i < j ==> #[trigger] ps@[i] == term(i),
            decreases 16 - j,
        {
            let word: u32 = if j < 8 {
                lo
            } else {
                hi
            };
            let half: u32 = if j % 8 < 4 {
                word
            } else {
                word >> 16
            };
            proof {
                assert(half & 15 <= 15 && half & 240 <= 240 && half & 3840 <= 3840 && half & 61440
                    <= 61440) by (bit_vector);
            }
            let p: A = if j % 4 == 0 {
                A::dyadic((half & 15) as i64, 0).times(xs[j])
            } else if j % 4 == 1 {
                A::dyadic((half & 240) as i64, 0).times(xs[j].times(s16))
            } else if j % 4 == 2 {
                A::dyadic((half & 3840) as i64, 0).times(xs[j].times(s256))
            } else {
                A::dyadic((half & 61440) as i64, 0).times(xs[j].times(s4096))
            };
            ps.push(p);
            j = j + 1;
        }
        add_up(&ps, Ghost(term))
    }
}

impl<'a, A: Scalar, T: Storage<A>> LaneWork<A> for SplitRow<'a, T> {
    closed spec fn ready(&self) -> bool {
        self.fits()
    }

    closed spec fn units(&self) -> int {
        self.in_dim as int / 16
    }

    closed spec fn unit(&self) -> int {
        2
    }

    closed spec fn terms(&self) -> spec_fn(int) -> A {
        split_terms::<A, T>(
            self.bits as int,
            self.weight@,
            self.scales@,
            self.biases@,
            self.input@,
            self.in_dim as int,
            self.group_size as int,
            self.row as int,
        )
    }

    fn accumulate(&self, acc: A, u: usize) -> (r: A) {
        let xs: Vec<A> = self.activations(u);
        let sum = add_up(&xs, Ghost(chunk_inputs::<A, T>(self.input@, u as int)));
        let g: usize = (u * 16) / self.group_size;
        let groups: usize = self.in_dim / self.group_size;
        proof {
            lemma_group_in(
                self.in_dim as int,
                self.group_size as int,
                u * 16,
            );
        }
        let scale: A = read(self.scales, self.rows, groups, self.row, g).widen();
        let bias: A = read(self.biases, self.rows, groups, self.row, g).widen();
        let dot: A = if self.bits == 2 {
            self.int2_dot(u, &xs)
        } else {
            self.int4_dot(u, &xs)
        };
        proof {
            reveal_with_fuel(sum_from, 3);
            assert((u * 2) / 2 == u && (u * 2) % 2 == 0 && (u * 2 + 1) / 2 == u && (u * 2 + 1) % 2
                == 1);
        }
        acc.plus(scale.times(dot)).plus(bias.times(sum))
    }
}

/// 2-bit dequantising GEMV, eight rows per threadgroup.
#[allow(clippy::too_many_arguments)]
pub fn iron_dequant_gemv_int2_fast<A: Scalar, T: Storage<A>>(
    weight: &[u32],
    scales: &[T],
    biases: &[T],
    input: &[T],
    output: &mut Vec<T>,
    in_dim: u32,
    group_size: u32,
    out_dim: u32,
)
    requires
        split_fits(
            2,
            weight@,
            scales@,
            biases@,
            input@,
            in_dim as int,
            group_size as int,
            out_dim as int,
        ),
        out_dim % 8 == 0,
        out_dim <= old(output)@.len(),
    ensures
        filled(
            old(output)@,
            final(output)@,
            out_dim as int,
            split_rows::<A, T>(
                2,
                weight@,
                scales@,
                biases@,
                input@,
                in_dim as int,
                group_size as int,
            ),
        ),
{
    split_kernel::<A, T>(2, weight, scales, biases, input, output, in_dim, group_size, out_dim)
}

/// 4-bit dequantising GEMV, eight rows per threadgroup.
#[allow(clippy::too_many_arguments)]
pub fn iron_dequant_gemv_int4_fast<A: Scalar, T: Storage<A>>(
    weight: &[u32],
    scales: &[T],
    biases: &[T],
    input: &[T],
    output: &mut Vec<T>,
    in_dim: u32,
    group_size: u32,
    out_dim: u32,
)
    requires
        split_fits(
            4,
            weight@,
            scales@,
            biases@,
            input@,
            in_dim as int,
            group_size as int,
            out_dim as int,
        ),
        out_dim % 8 == 0,
        out_dim <= old(output)@.len(),
    ensures
        filled(
            old(output)@,
            final(output)@,
            out_dim as int,
            split_rows::<A, T>(
                4,
                weight@,
                scales@,
                biases@,
                input@,
                in_dim as int,
                group_size as int,
            ),
        ),
{
    split_kernel::<A, T>(4, weight, scales, biases, input, output, in_dim, group_size, out_dim)
}

/// 4-bit dequantising GEMV over a gathered list of weight rows: output `i` is the dot
/// product of source row `row_indices[i]`.
#[allow(clippy::too_many_arguments)]
#[verifier::loop_isolation(false)]
pub fn iron_dequant_gemv_int4_gathered<A: Scalar, T: Storage<A>>(
    weight: &[u32],
    scales: &[T],
    biases: &[T],
    row_indices: &[u32],
    input: &[T],
    output: &mut Vec<T>,
    in_dim: u32,
    group_size: u32,
    out_dim: u32,
)
    requires
        out_dim <= row_indices@.len(),
        forall|i: int|
            0 <= i < out_dim ==> split_fits(
                4,
                weight@,
                scales@,
                biases@,
                input@,
                in_dim as int,
                group_size as int,
                #[trigger] row_indices@[i] + 1,
            ),
        out_dim % 8 == 0,
        out_dim <= old(output)@.len(),
    ensures
        filled(
            old(output)@,
            final(output)@,
            out_dim as int,
            gathered_rows::<A, T>(
                weight@,
                scales@,
                biases@,
                row_indices@,
                input@,
                in_dim as int,
                group_size as int,
            ),
        ),
{
    let ghost before = output@;
    let ghost value = gathered_rows::<A, T>(
        weight@,
        scales@,
        biases@,
        row_indices@,
        input@,
        in_dim as int,
        group_size as int,
    );
    let n: usize = out_dim as usize;
    let mut tg: usize = 0;
    while tg < n / 8
        invariant
            tg <= n / 8,
            filled(before, output@, tg * 8, value),
        decreases n / 8 - tg,
    {
        let mut sg: usize = 0;
        while sg < 2
            invariant
                sg <= 2,
                filled(before, output@, tg * 8 + sg * 4, value),
            decreases 2 - sg,
        {
            let mut r: usize = 0;
            while r < 4
                invariant
                    r <= 4,
                    filled(before, output@, tg * 8 + sg * 4 + r, value),
                decreases 4 - r,
            {
                let out_row: usize = tg * 8 + sg * 4 + r;
                let source: u32 = row_indices[out_row];
                let work = SplitRow {
                    bits: 4,
                    weight,
                    scales,
                    biases,
                    input,
                    in_dim: in_dim as usize,
                    group_size: group_size as usize,
                    row: source as usize,
                    rows: Ghost(source + 1),
                };
                let total: A = run_group(&work, in_dim as usize / 16, 32);
                output[out_row] = T::narrow(total);
                r = r + 1;
            }
            sg = sg + 1;
        }
        tg = tg + 1;
    }
}

/// The dispatch that both widths share.
#[allow(clippy::too_many_arguments)]
#[verifier::loop_isolation(false)]
fn split_kernel<A: Scalar, T: Storage<A>>(
    bits: u32,
    weight: &[u32],
    scales: &[T],
    biases: &[T],
    input: &[T],
    output: &mut Vec<T>,
    in_dim: u32,
    group_size: u32,
    out_dim: u32,
)
    requires
        bits == 2 || bits == 4,
        split_fits(
            bits as int,
            weight@,
            scales@,
            biases@,
            input@,
            in_dim as int,
            group_size as int,
            out_dim as int,
        ),
        out_dim % 8 == 0,
        out_dim <= old(output)@.len(),
    ensures
        filled(
            old(output)@,
            final(output)@,
            out_dim as int,
            split_rows::<A, T>(
                bits as int,
                weight@,
                scales@,
                biases@,
                input@,
                in_dim as int,
                group_size as int,
            ),
        ),
{
    let ghost before = output@;
    let ghost value = split_rows::<A, T>(
        bits as int,
        weight@,
        scales@,
        biases@,
        input@,
        in_dim as int,
        group_size as int,
    );
    let n: usize = out_dim as usize;
    let mut tg: usize = 0;
    while tg < n / 8
        invariant
            tg <= n / 8,
            filled(before, output@, tg * 8, value),
        decreases n / 8 - tg,
    {
        let mut sg: usize = 0;
        while sg < 2
            invariant
                sg <= 2,
                filled(before, output@, tg * 8 + sg * 4, value),
            decreases 2 - sg,
        {
            let mut r: usize = 0;
            while r < 4
                invariant
                    r <= 4,
                    filled(before, output@, tg * 8 + sg * 4 + r, value),
                decreases 4 - r,
            {
                let row: usize = tg * 8 + sg * 4 + r;
                let work = SplitRow {
                    bits,
                    weight,
                    scales,
                    biases,
                    input,
                    in_dim: in_dim as usize,
                    group_size: group_size as usize,
                    row,
                    rows: Ghost(out_dim as int),
                };
                let total: A = run_group(&work, in_dim as usize / 16, 32);
                output[row] = T::narrow(total);
                r = r + 1;
            }
            sg = sg + 1;
        }
        tg = tg + 1;
    }
}

/// Nibbles left where they stand are the nibbles, shifted.
proof fn lemma_unshifted(w: u32)
    by (bit_vector)
    ensures
        w & 240 == ((w >> 4) & 15) * 16,
        w & 3840 == ((w >> 8) & 15) * 256,
        w & 61440 == ((w >> 12) & 15) * 4096,
        (w >> 0) & 15 == w & 15,
        ((w >> 16) >> 4) & 15 == (w >> 20) & 15,
        ((w >> 16) >> 8) & 15 == (w >> 24) & 15,
        ((w >> 16) >> 12) & 15 == (w >> 28) & 15,
        ((1u32 << 4) - 1) as u32 == 15,
{
}

/// In exact arithmetic a nibble left where it stands, against an activation scaled down by
/// its place, gives the product of the code and the activation.
proof fn lemma_nibble_product<A: Scalar, T: Storage<A>>(
    weight: Seq<u32>,
    input: Seq<T>,
    in_dim: int,
    row: int,
    u: int,
    j: int,
)
    requires
        lossless::<A>(),
        0 <= u,
        0 <= j < 16,
    ensures
        (int4_products::<A, T>(weight, input, in_dim, row, u))(j) == whole::<A>(
            code_at(weight, row * (in_dim * 4 / 32), 4, u * 16 + j) as int,
        ).times_spec(input[u * 16 + j].widen_spec()),
{
    let k = u * 16 + j;
    let w = weight[row * (in_dim * 4 / 32) + u * 2 + j / 8];
    let x: A = input[k].widen_spec();
    let s = (k * 4) % 32;
    assert((k * 4) / 32 == u * 2 + j / 8 && s == (j % 8) * 4);
    lemma_unshifted(w);
    lemma_unshifted(w >> 16);
    lemma_field(w, s as u32, 4);
    let q = code_at(weight, row * (in_dim * 4 / 32), 4, k);
    assert(q == (w >> (s as u32)) & 15);
    let slot = j % 4;
    let half = if j % 8 < 4 {
        w
    } else {
        w >> 16
    };
    vstd::arithmetic::power2::lemma2_to64();
    if slot == 0 {
        assert(unshifted_nibble(half, slot) == q);
    } else {
        let shift = 4 * slot;
        let p = vstd::arithmetic::power2::pow2(shift as nat) as int;
        assert(p == (if slot == 1 {
            16int
        } else if slot == 2 {
            256
        } else {
            4096
        }));
        assert(unshifted_nibble(half, slot) == q * p);
        lemma_shifted_whole::<A>(q as int, shift as nat);
        lemma_scaled_product(q as int, shift, x);
    }
}

/// The 16 products of chunk `u` with its codes.
spec fn chunk_products<A: Scalar, T: Storage<A>>(
    bits: int,
    weight: Seq<u32>,
    input: Seq<T>,
    in_dim: int,
    row: int,
    u: int,
) -> spec_fn(int) -> A {
    |j: int|
        whole::<A>(
            code_at(weight, row * (in_dim * bits / 32), bits, u * 16 + j) as int,
        ).times_spec(input[u * 16 + j].widen_spec())
}

/// One chunk, split or whole.
#[allow(clippy::too_many_arguments)]
proof fn lemma_chunk<A: Scalar, T: Storage<A>>(
    bits: int,
    weight: Seq<u32>,
    scales: Seq<T>,
    biases: Seq<T>,
    input: Seq<T>,
    in_dim: int,
    group_size: int,
    row: int,
    u: int,
)
    requires
        lossless::<A>(),
        bits == 2 || bits == 4,
        group_size > 0,
        group_size % 16 == 0,
        0 <= u,
    ensures
        (unit_sums(
            2,
            split_terms::<A, T>(bits, weight, scales, biases, input, in_dim, group_size, row),
        ))(u) == (unit_sums(
            16,
            affine_terms::<A, T>(bits, weight, scales, biases, input, in_dim, group_size, row),
        ))(u),
{
    let split = split_terms::<A, T>(
        bits,
        weight,
        scales,
        biases,
        input,
        in_dim,
        group_size,
        row,
    );
    let affine = affine_terms::<A, T>(
        bits,
        weight,
        scales,
        biases,
        input,
        in_dim,
        group_size,
        row,
    );
    let g = row * (in_dim / group_size) + (u * 16) / group_size;
    let (scale, bias): (A, A) = (scales[g].widen_spec(), biases[g].widen_spec());
    let qx = chunk_products::<A, T>(bits, weight, input, in_dim, row, u);
    let xs = chunk_inputs::<A, T>(input, u);
    let raw = if bits == 2 {
        int2_products::<A, T>(weight, input, in_dim, row, u)
    } else {
        int4_products::<A, T>(weight, input, in_dim, row, u)
    };
    assert forall|j: int| 0 <= j < 16 implies #[trigger] raw(j) == qx(j) by {
        if bits == 4 {
            lemma_nibble_product::<A, T>(weight, input, in_dim, row, u, j);
        }
    }
    lemma_sum_from_first(16, raw);
    lemma_sum_from_first(16, xs);
    lemma_sum_same(whole(0), 0, 16, raw, qx);
    let here = |j: int| affine(u * 16 + j);
    let sqx = |j: int| scale.times_spec(qx(j));
    let bx = |j: int| bias.times_spec(xs(j));
    assert forall|j: int| 0 <= j < 16 implies #[trigger] here(j) == sqx(j).plus_spec(bx(j)) by {
        assert((u * 16 + j) / 16 == u);
        lemma_own_group(group_size, 16, u * 16 + j);
        lemma_affine_product(
            whole::<A>(
                code_at(weight, row * (in_dim * bits / 32), bits, u * 16 + j) as int,
            ),
            scale,
            bias,
            xs(j),
        );
    }
    lemma_sum_pairs(0, 16, sqx, bx, here);
    lemma_sum_factor(scale, 0, 16, qx, sqx);
    lemma_sum_factor(bias, 0, 16, xs, bx);
    lemma_sum_shift(whole(0), 0, 16, u * 16, here, affine);
    let (a, b) = (split(u * 2), split(u * 2 + 1));
    assert((u * 2) / 2 == u && (u * 2) % 2 == 0 && (u * 2 + 1) / 2 == u && (u * 2 + 1) % 2 == 1);
    assert(a == scale.times_spec(plain_sum(16, qx)));
    assert(b == bias.times_spec(plain_sum(16, xs)));
    lemma_pair_from_zero(u * 2, split);
}

/// Two terms from zero.
proof fn lemma_pair_from_zero<A: Scalar>(lo: int, f: spec_fn(int) -> A)
    requires
        lossless::<A>(),
    ensures
        sum_from(whole(0), lo, 2, f) == f(lo).plus_spec(f(lo + 1)),
{
    let g = |i: int| f(lo + i);
    lemma_sum_shift(whole(0), 0, 2, lo, g, f);
    lemma_sum_from_first(2, g);
    reveal_with_fuel(sum_from, 2);
}

/// In exact arithmetic the split decode gives the plain dot product of the decoded row,
/// `sum_k (q * scale + bias) * input[k]`, as the other dequantising kernels do.
#[allow(clippy::too_many_arguments)]
pub proof fn law_split_row_is_plain_sum<A: Scalar, T: Storage<A>>(
    bits: int,
    weight: Seq<u32>,
    scales: Seq<T>,
    biases: Seq<T>,
    input: Seq<T>,
    in_dim: int,
    group_size: int,
    row: int,
)
    requires
        lossless::<A>(),
        bits == 2 || bits == 4,
        in_dim % 16 == 0,
        0 <= in_dim,
        group_size > 0,
        group_size % 16 == 0,
    ensures
        split_row::<A, T>(bits, weight, scales, biases, input, in_dim, group_size, row)
            == plain_sum(
            in_dim,
            affine_terms::<A, T>(bits, weight, scales, biases, input, in_dim, group_size, row),
        ),
{
    let split = split_terms::<A, T>(
        bits,
        weight,
        scales,
        biases,
        input,
        in_dim,
        group_size,
        row,
    );
    let affine = affine_terms::<A, T>(
        bits,
        weight,
        scales,
        biases,
        input,
        in_dim,
        group_size,
        row,
    );
    let n = in_dim / 16;
    law_reduction_is_plain_sum(32, n, 2, split);
    lemma_units(0, n, 2, split);
    lemma_units(0, n, 16, affine);
    assert forall|u: int| 0 <= u < n implies #[trigger] (unit_sums(2, split))(u) == (unit_sums(
        16,
        affine,
    ))(u) by {
        lemma_chunk::<A, T>(
            bits,
            weight,
            scales,
            biases,
            input,
            in_dim,
            group_size,
            row,
            u,
        );
    }
    lemma_sum_same(whole(0), 0, n, unit_sums(2, split), unit_sums(16, affine));
}

/// A gathered row is the row that its index names.
pub proof fn law_gathered_rows_are_rows<A: Scalar, T: Storage<A>>(
    weight: Seq<u32>,
    scales: Seq<T>,
    biases: Seq<T>,
    row_indices: Seq<u32>,
    input: Seq<T>,
    in_dim: int,
    group_size: int,
    i: int,
)
    ensures
        (gathered_rows::<A, T>(
            weight,
            scales,
            biases,
            row_indices,
            input,
            in_dim,
            group_size,
        ))(i) == (split_rows::<A, T>(4, weight, scales, biases, input, in_dim, group_size))(
            row_indices[i] as int,
        ),
{
}

} // verus!
