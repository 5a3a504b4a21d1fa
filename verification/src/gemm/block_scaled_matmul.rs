//! Block-scaled dequantising GEMV: `output[row] = sum_k dequant(weight[row, k]) * input[k]`.
//!
//! A weight matrix is a buffer of element codes and a buffer with one scale per block of
//! `block_size` columns. [`Codes`] and [`Scales`] name the element and scale encodings.
use crate::exact::{law_reduction_is_plain_sum, lossless, plain_sum};
use crate::gemm::dequant_gemv::{lemma_group_in, lemma_groups};
use crate::primitives::{
    code_at, code_words, e2m1, e4m3, e5m2, e8m0, iron_decode_e2m1, iron_decode_e4m3,
    iron_decode_e5m2, iron_decode_e8m0, iron_decode_int8, lemma_window_bound, read_code,
    sign_extended,
};
use crate::scalar::{group_sum, run_group, sum_from, whole, LaneWork, Scalar, Storage};
use crate::tensor::{cell, filled, read};
use vstd::prelude::*;

verus! {

/// The element codes of a matrix.
pub enum Codes<'a> {
    /// 4-bit E2M1, eight to a word.
    E2m1(&'a [u32]),
    /// A stream of two's complement integers of the given width, 2 to 6 bits.
    Int(&'a [u32], u32),
    /// 8-bit E4M3.
    E4m3(&'a [u8]),
    /// 8-bit E5M2.
    E5m2(&'a [u8]),
    /// 8-bit two's complement integers.
    Int8(&'a [u8]),
}

/// The block scales of a matrix.
pub enum Scales<'a, A, S> {
    /// E8M0 powers of two.
    Pow2(&'a [u8]),
    /// E4M3 scales under one factor for the whole matrix; with E2M1 codes only.
    Micro(&'a [u8], A),
    /// The scales themselves.
    Direct(&'a [S]),
}

impl<'a> Codes<'a> {
    /// The value of the code at `(row, c)`.
    pub open spec fn value<A: Scalar>(&self, in_dim: int, row: int, c: int) -> A {
        match self {
            Codes::E2m1(words) => e2m1(
                (words@[row * (in_dim / 8) + c / 8] >> (((c % 8) * 4) as u32)) & 15,
            ),
            Codes::Int(words, bits) => whole(
                sign_extended(
                    code_at(words@, row * (in_dim * *bits / 32), *bits as int, c),
                    *bits as int,
                ),
            ),
            Codes::E4m3(bytes) => e4m3(bytes@[row * in_dim + c] as u32),
            Codes::E5m2(bytes) => e5m2(bytes@[row * in_dim + c] as u32),
            Codes::Int8(bytes) => whole(sign_extended(bytes@[row * in_dim + c] as u32, 8)),
        }
    }

    /// How many columns a lane takes at a time.
    pub open spec fn stride(&self) -> int {
        match self {
            Codes::E2m1(_) => 8,
            _ => 1,
        }
    }

    /// The buffer holds `rows` rows.
    pub open spec fn holds(&self, in_dim: int, rows: int) -> bool {
        match self {
            Codes::E2m1(words) => in_dim % 8 == 0 && rows * (in_dim / 8) <= words@.len(),
            Codes::Int(words, bits) => {
                &&& 2 <= *bits <= 6
                &&& in_dim * *bits <= usize::MAX
                &&& rows > 0 ==> (rows - 1) * (in_dim * *bits / 32) + code_words(
                    *bits as int,
                    in_dim,
                ) <= words@.len()
            },
            Codes::E4m3(bytes) => rows * in_dim <= bytes@.len(),
            Codes::E5m2(bytes) => rows * in_dim <= bytes@.len(),
            Codes::Int8(bytes) => rows * in_dim <= bytes@.len(),
        }
    }

    /// Decodes the code at `(row, c)`.
    pub(crate) fn decode<A: Scalar>(&self, in_dim: usize, row: usize, c: usize, rows: Ghost<
        int,
    >) -> (r: A)
        requires
            self.holds(in_dim as int, rows@),
            row < rows@,
            c < in_dim,
        ensures
            r == self.value::<A>(in_dim as int, row as int, c as int),
    {
        match self {
            Codes::E2m1(words) => {
                let packed: u32 = read(words, rows, in_dim / 8, row, c / 8);
                iron_decode_e2m1((packed >> (((c % 8) * 4) as u32)) & 15)
            },
            Codes::Int(words, bits) => {
                let width: u32 = *bits;
                let per_row: usize = in_dim * (width as usize) / 32;
                proof {
                    assert(words@.len() == words.len());
                    assert(0 <= in_dim * width) by (nonlinear_arith);
                    assert(row * per_row <= (rows@ - 1) * per_row) by (nonlinear_arith)
                        requires
                            row <= rows@ - 1,
                            0 <= per_row,
                    ;
                }
                let q: u32 = read_code(words, row * per_row, width, c, Ghost(in_dim as int));
                let half: u32 = 1u32 << (width - 1);
                proof {
                    let at = row * per_row + (c * width) / 32;
                    let s = (c * width) % 32;
                    lemma_window_bound(
                        words@[at],
                        if s + width > 32 {
                            words@[at + 1]
                        } else {
                            words@[at]
                        },
                        s as u32,
                        width,
                    );
                    lemma_widths();
                }
                let full: i32 = (1u32 << width) as i32;
                proof {
                    let low = vstd::arithmetic::power2::pow2((width - 1) as nat) as int;
                    assert(half == low && full == 2 * low);
                    vstd::arithmetic::div_mod::lemma_small_mod(q as nat, (2 * low) as nat);
                }
                let value: i32 = if q >= half {
                    q as i32 - full
                } else {
                    q as i32
                };
                A::dyadic(value as i64, 0)
            },
            Codes::E4m3(bytes) => iron_decode_e4m3(read(bytes, rows, in_dim, row, c) as u32),
            Codes::E5m2(bytes) => iron_decode_e5m2(read(bytes, rows, in_dim, row, c) as u32),
            Codes::Int8(bytes) => iron_decode_int8(read(bytes, rows, in_dim, row, c) as u32),
        }
    }
}

/// The powers of two up to `2^6`, in both notations.
proof fn lemma_widths()
    ensures
        forall|b: u32|
            1 <= b <= 6 ==> #[trigger] (1u32 << b) == vstd::arithmetic::power2::pow2(b as nat),
        forall|b: u32| 2 <= b <= 6 ==> #[trigger] (1u32 << b) == 2 * (1u32 << ((b - 1) as u32)),
        forall|b: u32| 1 <= b <= 6 ==> #[trigger] (1u32 << b) <= 64,
{
    vstd::arithmetic::power2::lemma2_to64();
    assert(1u32 << 1u32 == 2 && 1u32 << 2u32 == 4 && 1u32 << 3u32 == 8 && 1u32 << 4u32 == 16 && 1u32
        << 5u32 == 32 && 1u32 << 6u32 == 64) by (bit_vector);
}

impl<'a, A: Scalar, S: Storage<A>> Scales<'a, A, S> {
    /// The scale at `(row, block)`.
    pub open spec fn value(&self, blocks: int, row: int, block: int) -> A {
        match self {
            Scales::Pow2(bytes) => e8m0(cell(bytes@, blocks, row, block) as u32),
            Scales::Micro(bytes, global) => e4m3::<A>(
                cell(bytes@, blocks, row, block) as u32,
            ).times_spec(*global),
            Scales::Direct(values) => cell(values@, blocks, row, block).widen_spec(),
        }
    }

    /// The buffer holds `rows` rows of `blocks` scales.
    pub open spec fn holds(&self, blocks: int, rows: int) -> bool {
        match self {
            Scales::Pow2(bytes) => rows * blocks <= bytes@.len(),
            Scales::Micro(bytes, _) => rows * blocks <= bytes@.len(),
            Scales::Direct(values) => rows * blocks <= values@.len(),
        }
    }

    /// Decodes the scale at `(row, block)`.
    pub(crate) fn decode(&self, blocks: usize, row: usize, block: usize, rows: Ghost<int>) -> (r: A)
        requires
            self.holds(blocks as int, rows@),
            row < rows@,
            block < blocks,
        ensures
            r == self.value(blocks as int, row as int, block as int),
    {
        match self {
            Scales::Pow2(bytes) => iron_decode_e8m0(read(bytes, rows, blocks, row, block) as u32),
            Scales::Micro(bytes, global) => iron_decode_e4m3::<A>(
                read(bytes, rows, blocks, row, block) as u32,
            ).times(*global),
            Scales::Direct(values) => read(values, rows, blocks, row, block).widen(),
        }
    }
}

/// A matrix of `rows` rows fits its buffers, in an encoding that a kernel exists for.
pub open spec fn scaled_fits<'a, A: Scalar, S: Storage<A>>(
    codes: Codes<'a>,
    scales: Scales<'a, A, S>,
    in_dim: int,
    block_size: int,
    rows: int,
) -> bool {
    &&& codes.holds(in_dim, rows)
    &&& block_size > 0
    &&& in_dim % block_size == 0
    &&& codes is E2m1 ==> block_size % 8 == 0
    &&& scales is Micro ==> codes is E2m1
    &&& scales.holds(in_dim / block_size, rows)
}

/// The products that make up one output: column `k` contributes
/// `(value * scale) * x[off + k]`.
pub open spec fn scaled_terms<'a, A: Scalar, S: Storage<A>, T: Storage<A>>(
    codes: Codes<'a>,
    scales: Scales<'a, A, S>,
    x: Seq<T>,
    off: int,
    in_dim: int,
    block_size: int,
    row: int,
) -> spec_fn(int) -> A {
    |k: int|
        codes.value::<A>(in_dim, row, k).times_spec(
            scales.value(in_dim / block_size, row, k / block_size),
        ).times_spec(x[off + k].widen_spec())
}

/// A matrix row times the activations from `off` on, before it is narrowed.
pub open spec fn scaled_row<'a, A: Scalar, S: Storage<A>, T: Storage<A>>(
    codes: Codes<'a>,
    scales: Scales<'a, A, S>,
    x: Seq<T>,
    off: int,
    in_dim: int,
    block_size: int,
    row: int,
    lanes: int,
) -> A {
    group_sum(
        lanes,
        in_dim / codes.stride(),
        codes.stride(),
        scaled_terms::<A, S, T>(codes, scales, x, off, in_dim, block_size, row),
    )
}

/// One output with its buffers.
pub(crate) struct ScaledRow<'a, 'b, A, S, T> {
    pub codes: &'b Codes<'a>,
    pub scales: &'b Scales<'a, A, S>,
    pub x: &'b [T],
    pub off: usize,
    pub in_dim: usize,
    pub block_size: usize,
    pub row: usize,
    pub rows: Ghost<int>,
}

impl<'a, 'b, A: Scalar, S: Storage<A>, T: Storage<A>> LaneWork<A> for ScaledRow<'a, 'b, A, S, T> {
    open spec fn ready(&self) -> bool {
        &&& scaled_fits(
            *self.codes,
            *self.scales,
            self.in_dim as int,
            self.block_size as int,
            self.rows@,
        )
        &&& self.off + self.in_dim <= self.x@.len()
        &&& self.row < self.rows@
    }

    open spec fn units(&self) -> int {
        self.in_dim as int / self.codes.stride()
    }

    open spec fn unit(&self) -> int {
        self.codes.stride()
    }

    open spec fn terms(&self) -> spec_fn(int) -> A {
        scaled_terms::<A, S, T>(
            *self.codes,
            *self.scales,
            self.x@,
            self.off as int,
            self.in_dim as int,
            self.block_size as int,
            self.row as int,
        )
    }

    fn accumulate(&self, acc: A, u: usize) -> (r: A) {
        let n_blocks: usize = self.in_dim / self.block_size;
        let nibbles: bool = match self.codes {
            Codes::E2m1(_) => true,
            _ => false,
        };
        proof {
            assert(self.x@.len() == self.x.len());
            assert(self.unit() == if nibbles {
                8int
            } else {
                1int
            });
        }
        if nibbles {
            let packs_per_block: usize = self.block_size / 8;
            proof {
                lemma_groups(self.in_dim as int, self.block_size as int, 8, u as int);
            }
            let scale = self.scales.decode(n_blocks, self.row, u / packs_per_block, self.rows);
            let mut acc = acc;
            let ghost start = acc;
            let mut i: usize = 0;
            while i < 8
                invariant
                    self.ready(),
                    self.codes is E2m1,
                    u < self.units(),
                    self.off + self.in_dim <= usize::MAX,
                    u * 8 + 8 <= self.in_dim,
                    scale == self.scales.value(
                        self.in_dim as int / self.block_size as int,
                        self.row as int,
                        (u * 8) / (self.block_size as int),
                    ),
                    i <= 8,
                    acc == sum_from(start, u * 8, i as int, self.terms()),
                decreases 8 - i,
            {
                let c: usize = u * 8 + i;
                let value: A = self.codes.decode(self.in_dim, self.row, c, self.rows);
                proof {
                    lemma_same_block(self.block_size as int, u as int, i as int);
                }
                acc = acc.plus(value.times(scale).times(self.x[self.off + c].widen()));
                i = i + 1;
            }
            acc
        } else {
            proof {
                lemma_group_in(self.in_dim as int, self.block_size as int, u as int);
                reveal_with_fuel(sum_from, 2);
            }
            let scale = self.scales.decode(n_blocks, self.row, u / self.block_size, self.rows);
            let value: A = self.codes.decode(self.in_dim, self.row, u, self.rows);
            let r = acc.plus(value.times(scale).times(self.x[self.off + u].widen()));
            assert(r == sum_from(acc, u as int, 1, self.terms()));
            r
        }
    }
}

/// The eight columns of a pack share a block.
proof fn lemma_same_block(block_size: int, u: int, i: int)
    requires
        block_size > 0,
        block_size % 8 == 0,
        0 <= u,
        0 <= i < 8,
    ensures
        (u * 8 + i) / block_size == (u * 8) / block_size,
{
    let per = block_size / 8;
    let q = u / per;
    let r = u % per;
    assert(u == per * q + r && 0 <= r < per) by (nonlinear_arith)
        requires
            per > 0,
            q == u / per,
            r == u % per,
    ;
    assert(u * 8 == block_size * q + r * 8) by (nonlinear_arith)
        requires
            u == per * q + r,
            block_size == per * 8,
    ;
    assert((u * 8) / block_size == q) by (nonlinear_arith)
        requires
            u * 8 == block_size * q + r * 8,
            0 <= r * 8 < block_size,
    ;
    assert((u * 8 + i) / block_size == q) by (nonlinear_arith)
        requires
            u * 8 + i == block_size * q + (r * 8 + i),
            0 <= r * 8 + i < block_size,
    ;
}

/// Block-scaled dequantising GEMV: one threadgroup of `lsize` lanes per output row, over
/// `out_dim` rows.
#[allow(clippy::too_many_arguments)]
#[verifier::loop_isolation(false)]
pub fn iron<'a, A: Scalar, S: Storage<A>, T: Storage<A>>(
    weight: &Codes<'a>,
    scales: &Scales<'a, A, S>,
    input: &[T],
    output: &mut Vec<T>,
    in_dim: u32,
    block_size: u32,
    out_dim: u32,
    lsize: u32,
)
    requires
        scaled_fits(*weight, *scales, in_dim as int, block_size as int, out_dim as int),
        in_dim <= input@.len(),
        lsize > 0,
        in_dim + lsize <= u32::MAX,
        out_dim <= old(output)@.len(),
    ensures
        filled(
            old(output)@,
            final(output)@,
            out_dim as int,
            scaled_rows::<A, S, T>(
                *weight,
                *scales,
                input@,
                in_dim as int,
                block_size as int,
                lsize as int,
            ),
        ),
{
    let ghost before = output@;
    let ghost value = scaled_rows::<A, S, T>(
        *weight,
        *scales,
        input@,
        in_dim as int,
        block_size as int,
        lsize as int,
    );
    let units: usize = match weight {
        Codes::E2m1(_) => in_dim as usize / 8,
        _ => in_dim as usize,
    };
    let mut row: usize = 0;
    while row < out_dim as usize
        invariant
            row <= out_dim,
            filled(before, output@, row as int, value),
        decreases out_dim - row,
    {
        let work = ScaledRow {
            codes: weight,
            scales,
            x: input,
            off: 0,
            in_dim: in_dim as usize,
            block_size: block_size as usize,
            row,
            rows: Ghost(out_dim as int),
        };
        let total: A = run_group(&work, units, lsize as usize);
        output[row] = T::narrow(total);
        row = row + 1;
    }
}

/// The outputs, row by row.
pub open spec fn scaled_rows<'a, A: Scalar, S: Storage<A>, T: Storage<A>>(
    weight: Codes<'a>,
    scales: Scales<'a, A, S>,
    input: Seq<T>,
    in_dim: int,
    block_size: int,
    lanes: int,
) -> spec_fn(int) -> T {
    |row: int|
        T::narrow_spec(
            scaled_row::<A, S, T>(weight, scales, input, 0, in_dim, block_size, row, lanes),
        )
}

/// In exact arithmetic an output is the plain sum `sum_k value * scale * x[k]`.
#[allow(clippy::too_many_arguments)]
pub proof fn law_scaled_row_is_plain_sum<'a, A: Scalar, S: Storage<A>, T: Storage<A>>(
    codes: Codes<'a>,
    scales: Scales<'a, A, S>,
    x: Seq<T>,
    off: int,
    in_dim: int,
    block_size: int,
    row: int,
    lanes: int,
)
    requires
        lossless::<A>(),
        0 <= in_dim,
        in_dim % codes.stride() == 0,
        lanes > 0,
    ensures
        scaled_row::<A, S, T>(codes, scales, x, off, in_dim, block_size, row, lanes) == plain_sum(
            in_dim,
            scaled_terms::<A, S, T>(codes, scales, x, off, in_dim, block_size, row),
        ),
{
    law_reduction_is_plain_sum(
        lanes,
        in_dim / codes.stride(),
        codes.stride(),
        scaled_terms::<A, S, T>(codes, scales, x, off, in_dim, block_size, row),
    );
    if codes is E2m1 {
        assert(in_dim / 8 * 8 == in_dim);
    } else {
        assert(in_dim / 1 * 1 == in_dim);
    }
}

} // verus!
