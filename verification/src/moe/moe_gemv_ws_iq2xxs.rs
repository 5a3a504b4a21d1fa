//! Weight-stationary GEMV over IQ2_XXS experts: a threadgroup decodes its weight row once
//! and reuses it for all rows of a tile that belong to the same expert.
use crate::exact::{law_reduction_is_plain_sum, lemma_sum_same, lossless, plain_sum};
use crate::gemm::packed_rows::holds_values;
use crate::layout::digits;
use crate::moe::iq2xxs::{
    byte_weight, decode, decode_scale, group_scale, group_value, half_value, law_group_value,
    lemma_weight_place, word_of_bytes,
};
use crate::quant::gguf_iq2_xxs_extract_qs::{lemma_packed, quant_words};
use crate::scalar::{group_sum, run_group, sum_from, whole, LaneWork, Scalar, Storage};
use crate::tensor::{cell, filled2, lemma_flat, put};
use crate::tile::zeros;
use vstd::prelude::*;

verus! {

/// Weight `k` of the row whose first block is `block`.
pub open spec fn block_weight<A: Scalar>(
    qs: Seq<u32>,
    d: Seq<A>,
    grid: Seq<u8>,
    signs: Seq<u8>,
    block: int,
    k: int,
) -> A {
    let b = block + k / 256;
    let at = b * 16 + k % 256 / 32 * 2;
    group_value(group_scale(d[b], qs[at + 1]), qs[at], qs[at + 1], grid, signs, k % 32)
}

/// The first block of row `m` of an expert.
pub open spec fn first_block(k_in: int, m_out: int, expert: int, m: int) -> int {
    (expert * m_out + m) * (k_in / 256)
}

/// The products of activation row `row` with weight row `m` of its expert.
#[allow(clippy::too_many_arguments)]
pub open spec fn stationary_terms<A: Scalar, T: Storage<A>>(
    x: Seq<T>,
    qs: Seq<u32>,
    d: Seq<A>,
    grid: Seq<u8>,
    signs: Seq<u8>,
    k_in: int,
    block: int,
    row: int,
) -> spec_fn(int) -> A {
    |k: int|
        block_weight(qs, d, grid, signs, block, k).times_spec(cell(x, k_in, row, k).widen_spec())
}

/// The outputs: row `r` against every weight row of its expert.
#[allow(clippy::too_many_arguments)]
pub open spec fn stationary_outputs<A: Scalar, T: Storage<A>>(
    x: Seq<T>,
    qs: Seq<u32>,
    d: Seq<A>,
    grid: Seq<u8>,
    signs: Seq<u8>,
    expert_ids: Seq<u32>,
    k_in: int,
    m_out: int,
) -> spec_fn(int, int) -> T {
    |r: int, m: int|
        T::narrow_spec(
            group_sum(
                32,
                k_in / 256 * 8,
                32,
                stationary_terms::<A, T>(
                    x,
                    qs,
                    d,
                    grid,
                    signs,
                    k_in,
                    first_block(k_in, m_out, expert_ids[r] as int, m),
                    r,
                ),
            ),
        )
}

/// A decoded weight row against one activation row.
struct StationaryRow<'a, A, T> {
    x: &'a [T],
    ws: &'a Vec<A>,
    qs: Ghost<Seq<u32>>,
    d: Ghost<Seq<A>>,
    grid: Ghost<Seq<u8>>,
    signs: Ghost<Seq<u8>>,
    k_in: usize,
    block: Ghost<int>,
    row: usize,
    rows: Ghost<int>,
}

impl<'a, A: Scalar, T: Storage<A>> LaneWork<A> for StationaryRow<'a, A, T> {
    closed spec fn ready(&self) -> bool {
        &&& self.k_in as int % 256 == 0
        &&& self.k_in <= self.ws@.len()
        &&& self.row < self.rows@
        &&& self.rows@ * self.k_in <= self.x@.len()
        &&& forall|k: int|
            0 <= k < self.k_in ==> #[trigger] self.ws@[k] == block_weight(
                self.qs@,
                self.d@,
                self.grid@,
                self.signs@,
                self.block@,
                k,
            )
    }

    closed spec fn units(&self) -> int {
        self.k_in as int / 256 * 8
    }

    closed spec fn unit(&self) -> int {
        32
    }

    closed spec fn terms(&self) -> spec_fn(int) -> A {
        stationary_terms::<A, T>(
            self.x@,
            self.qs@,
            self.d@,
            self.grid@,
            self.signs@,
            self.k_in as int,
            self.block@,
            self.row as int,
        )
    }

    fn accumulate(&self, acc: A, u: usize) -> (r: A) {
        let b: usize = u / 8;
        let group: usize = u % 8;
        let x_grp: usize = b * 256 + group * 32;
        let mut acc = acc;
        let ghost start = acc;
        let mut e: usize = 0;
        while e < 32
            invariant
                e <= 32,
                self.ready(),
                x_grp == u * 32,
                x_grp + 32 <= self.k_in,
                acc == sum_from(start, x_grp as int, e as int, self.terms()),
            decreases 32 - e,
        {
            let k: usize = x_grp + e;
            let xv: A = crate::tensor::read(self.x, self.rows, self.k_in, self.row, k).widen();
            acc = acc.plus(self.ws[k].times(xv));
            e = e + 1;
        }
        acc
    }
}

/// Decodes the row of blocks that starts at `block`.
#[verifier::loop_isolation(false)]
fn decode_row<A: Scalar>(
    qs: &[u32],
    d: &[A],
    grid: &[u8],
    signs: &[u8],
    block: usize,
    k_in: usize,
    ws: &mut Vec<A>,
)
    requires
        k_in % 256 == 0,
        (block + k_in as int / 256) * 16 <= qs@.len(),
        block + k_in as int / 256 <= d@.len(),
        grid@.len() >= 2048,
        signs@.len() >= 128,
        k_in <= old(ws)@.len(),
    ensures
        final(ws)@.len() == old(ws)@.len(),
        forall|k: int|
            0 <= k < k_in ==> #[trigger] final(ws)@[k] == block_weight(
                qs@,
                d@,
                grid@,
                signs@,
                block as int,
                k,
            ),
{
    let ghost n = ws@.len();
    let groups: usize = k_in / 256 * 8;
    proof {
        assert(qs@.len() == qs.len());
        assert(d@.len() == d.len());
    }
    let mut grp: usize = 0;
    while grp < groups
        invariant
            grp <= groups,
            ws@.len() == n,
            forall|k: int|
                0 <= k < grp * 32 ==> #[trigger] ws@[k] == block_weight(
                    qs@,
                    d@,
                    grid@,
                    signs@,
                    block as int,
                    k,
                ),
        decreases groups - grp,
    {
        let b: usize = block + grp / 8;
        let group: usize = grp % 8;
        let at: usize = b * 16 + group * 2;
        let aux_idx: u32 = qs[at];
        let aux_sgn: u32 = qs[at + 1];
        let scale: A = decode_scale(d[b], aux_sgn);
        let mut j: usize = 0;
        while j < 32
            invariant
                j <= 32,
                ws@.len() == n,
                forall|k: int|
                    0 <= k < grp * 32 + j ==> #[trigger] ws@[k] == block_weight(
                        qs@,
                        d@,
                        grid@,
                        signs@,
                        block as int,
                        k,
                    ),
            decreases 32 - j,
        {
            let k: usize = grp * 32 + j;
            proof {
                lemma_place(grp as int, j as int);
            }
            ws[k] = decode(scale, aux_idx, aux_sgn, grid, signs, j);
            j = j + 1;
        }
        grp = grp + 1;
    }
}

/// Where weight `j` of group `grp` lies.
proof fn lemma_place(grp: int, j: int)
    requires
        0 <= grp,
        0 <= j < 32,
    ensures
        (grp * 32 + j) / 256 == grp / 8,
        (grp * 32 + j) % 256 / 32 == grp % 8,
        (grp * 32 + j) % 32 == j,
{
}

/// An expert's rows lie inside the buffers.
pub open spec fn blocks_fit<A>(
    qs: Seq<u32>,
    d: Seq<A>,
    k_in: int,
    m_out: int,
    experts: int,
) -> bool {
    &&& experts * m_out * (k_in / 256) * 16 <= qs.len()
    &&& experts * m_out * (k_in / 256) <= d.len()
}

/// `out[r, m] = x[r] . W[expert_ids[r], m]`: one threadgroup of 32 lanes per output column
/// and tile of `rows_per_tile` rows.
#[allow(clippy::too_many_arguments)]
#[verifier::loop_isolation(false)]
#[verifier::rlimit(30)]
pub fn iron_moe_gemv_ws_iq2xxs<A: Scalar, T: Storage<A>>(
    x: &[T],
    qs_all: &[u32],
    d_all: &[A],
    expert_ids: &[u32],
    grid: &[u8],
    signs: &[u8],
    out: &mut Vec<T>,
    k_in: u32,
    m_out: u32,
    m_total: u32,
    rows_per_tile: u32,
)
    requires
        k_in % 256 == 0,
        k_in <= 4096,
        rows_per_tile > 0,
        m_total + rows_per_tile <= u32::MAX,
        grid@.len() >= 2048,
        signs@.len() >= 128,
        m_total * k_in <= x@.len(),
        m_total <= expert_ids@.len(),
        forall|r: int|
            0 <= r < m_total ==> #[trigger] expert_ids@[r] < u32::MAX && blocks_fit(
                qs_all@,
                d_all@,
                k_in as int,
                m_out as int,
                expert_ids@[r] + 1,
            ),
        m_total * m_out <= old(out)@.len(),
    ensures
        filled2(
            old(out)@,
            final(out)@,
            m_total as int,
            m_out as int,
            stationary_outputs::<A, T>(
                x@,
                qs_all@,
                d_all@,
                grid@,
                signs@,
                expert_ids@,
                k_in as int,
                m_out as int,
            ),
        ),
{
    let ghost was = out@;
    let ghost want = |r: int, m: int|
        T::narrow_spec(
            group_sum(
                32,
                k_in as int / 256 * 8,
                32,
                stationary_terms::<A, T>(
                    x@,
                    qs_all@,
                    d_all@,
                    grid@,
                    signs@,
                    k_in as int,
                    first_block(k_in as int, m_out as int, expert_ids@[r] as int, m),
                    r,
                ),
            ),
        );
    let (k, cols, rows): (usize, usize, usize) = (
        k_in as usize,
        m_out as usize,
        m_total as usize,
    );
    let per_tile: usize = rows_per_tile as usize;
    let tiles: usize = (rows + per_tile - 1) / per_tile;
    let bpr: usize = k / 256;
    proof {
        vstd::arithmetic::div_mod::lemma_fundamental_div_mod(
            rows + per_tile - 1,
            per_tile as int,
        );
        assert(rows <= tiles * per_tile <= rows + per_tile - 1) by (nonlinear_arith)
            requires
                rows + per_tile - 1 == per_tile * tiles + (rows + per_tile - 1) % (per_tile as int),
                0 <= (rows + per_tile - 1) % (per_tile as int) < per_tile,
        ;
    }
    let mut m: usize = 0;
    while m < cols
        invariant
            m <= cols,
            out@.len() == was.len(),
            forall|i: int| rows * cols <= i < was.len() ==> #[trigger] out@[i] == was[i],
            forall|r: int, c: int|
                0 <= r < rows && 0 <= c < m ==> #[trigger] cell(out@, cols as int, r, c) == want(
                    r,
                    c,
                ),
        decreases cols - m,
    {
        let mut tile: usize = 0;
        while tile < tiles
            invariant
                tile <= tiles,
                out@.len() == was.len(),
                forall|i: int| rows * cols <= i < was.len() ==> #[trigger] out@[i] == was[i],
                forall|r: int, c: int|
                    0 <= r < rows && 0 <= c <= m && (c < m || r < tile * per_tile)
                        ==> #[trigger] cell(out@, cols as int, r, c) == want(r, c),
            decreases tiles - tile,
        {
            proof {
                assert(tile * per_tile + per_tile <= tiles * per_tile) by (nonlinear_arith)
                    requires
                        tile + 1 <= tiles,
                ;
                assert((tile + 1) * per_tile == tile * per_tile + per_tile && 0 <= tile * per_tile)
                    by (nonlinear_arith);
            }
            let row0: usize = tile * per_tile;
            let mut ws: Vec<A> = zeros(4096);
            let mut cur: u32 = u32::MAX;
            let mut r: usize = 0;
            while r < per_tile
                invariant
                    r <= per_tile,
                    ws@.len() == 4096,
                    cur != u32::MAX ==> forall|i: int|
                        0 <= i < k ==> #[trigger] ws@[i] == block_weight(
                            qs_all@,
                            d_all@,
                            grid@,
                            signs@,
                            first_block(k as int, cols as int, cur as int, m as int),
                            i,
                        ),
                    out@.len() == was.len(),
                    forall|i: int| rows * cols <= i < was.len() ==> #[trigger] out@[i] == was[i],
                    forall|r2: int, c: int|
                        0 <= r2 < rows && 0 <= c <= m && (c < m || r2 < row0 + r)
                            ==> #[trigger] cell(out@, cols as int, r2, c) == want(r2, c),
                decreases per_tile - r,
            {
                let row: usize = row0 + r;
                if row < rows {
                    let expert: u32 = expert_ids[row];
                    if expert != cur {
                        proof {
                            lemma_blocks(
                                expert as int,
                                cols as int,
                                m as int,
                                bpr as int,
                                qs_all@.len() as int,
                                d_all@.len() as int,
                            );
                            assert(d_all@.len() == d_all.len());
                        }
                        let block: usize = (expert as usize) * (cols * bpr) + m * bpr;
                        decode_row(qs_all, d_all, grid, signs, block, k, &mut ws);
                        cur = expert;
                    }
                    let work = StationaryRow {
                        x,
                        ws: &ws,
                        qs: Ghost(qs_all@),
                        d: Ghost(d_all@),
                        grid: Ghost(grid@),
                        signs: Ghost(signs@),
                        k_in: k,
                        block: Ghost(first_block(k as int, cols as int, expert as int, m as int)),
                        row,
                        rows: Ghost(rows as int),
                    };
                    let total: A = run_group(&work, bpr * 8, 32);
                    put(out, Ghost(rows as int), cols, row, m, T::narrow(total));
                }
                r = r + 1;
            }
            tile = tile + 1;
        }
        m = m + 1;
    }
}

/// A weight row decodes from the extracted quant words and scales as from its raw blocks.
#[allow(clippy::too_many_arguments)]
pub proof fn law_extracted_words_decode_alike<A: Scalar>(
    bytes: Seq<u8>,
    qs: Seq<u32>,
    d: Seq<A>,
    grid: Seq<u8>,
    signs: Seq<u8>,
    block: int,
    k: int,
)
    requires
        0 <= block,
        0 <= k,
        (block + k / 256) * 66 + 66 <= bytes.len(),
        forall|i: int|
            0 <= i < (block + k / 256) * 16 + 16 ==> #[trigger] qs[i] == (quant_words(bytes))(i),
        d[block + k / 256] == half_value::<A>(
            (bytes[(block + k / 256) * 66] as u32) | ((bytes[(block + k / 256) * 66 + 1] as u32)
                << 8),
        ),
    ensures
        block_weight(qs, d, grid, signs, block, k) == byte_weight::<A>(
            bytes,
            grid,
            signs,
            0,
            block * 256 + k,
        ),
{
    let b = block + k / 256;
    let g = k % 256 / 32;
    let v = block * 256 + k;
    let at = b * 16 + g * 2;
    let q = b * 66 + 2 + g * 8;
    assert(v / 256 == b && v % 256 == k % 256 && v % 32 == k % 32);
    assert(at / 16 == b && at % 16 == g * 2 && (at + 1) / 16 == b && (at + 1) % 16 == g * 2 + 1);
    assert(qs[at] == (quant_words(bytes))(at) && qs[at + 1] == (quant_words(bytes))(at + 1));
    lemma_packed(
        bytes[q] as u32,
        bytes[q + 1] as u32,
        bytes[q + 2] as u32,
        bytes[q + 3] as u32,
    );
    lemma_packed(
        bytes[q + 4] as u32,
        bytes[q + 5] as u32,
        bytes[q + 6] as u32,
        bytes[q + 7] as u32,
    );
    assert(qs[at] == word_of_bytes(bytes, q));
    assert(qs[at + 1] == word_of_bytes(bytes, q + 4));
}

/// The blocks of row `m` of an expert lie inside a stack that holds the expert.
proof fn lemma_blocks(expert: int, m_out: int, m: int, bpr: int, words: int, scales: int)
    requires
        0 <= expert,
        0 <= m < m_out,
        0 <= bpr,
        (expert + 1) * m_out * bpr * 16 <= words,
        (expert + 1) * m_out * bpr <= scales,
    ensures
        0 <= m_out * bpr,
        0 <= m * bpr,
        0 <= expert * (m_out * bpr),
        expert * (m_out * bpr) + m * bpr == (expert * m_out + m) * bpr,
        ((expert * m_out + m) * bpr + bpr) * 16 <= words,
        (expert * m_out + m) * bpr + bpr <= scales,
        m_out * bpr <= scales,
{
    lemma_flat(expert + 1, m_out, expert, m);
    let (row, all) = (expert * m_out + m, (expert + 1) * m_out);
    assert(row * bpr + bpr <= all * bpr) by (nonlinear_arith)
        requires
            row + 1 <= all,
            0 <= bpr,
    ;
    assert(expert * (m_out * bpr) + m * bpr == (expert * m_out + m) * bpr) by (nonlinear_arith);
    assert(0 <= m_out * bpr && 0 <= m * bpr) by (nonlinear_arith)
        requires
            0 <= m_out,
            0 <= m,
            0 <= bpr,
    ;
    let one = m_out * bpr;
    assert(0 <= expert * one) by (nonlinear_arith)
        requires
            0 <= expert,
            0 <= one,
    ;
    assert((expert + 1) * m_out * bpr == expert * one + one) by (nonlinear_arith)
        requires
            one == m_out * bpr,
    ;
}

/// In exact arithmetic eight times weight `256 * b + 32 * g + 8 * o + l` of a row of extracted
/// blocks: a block is 16 words under one scale, a group two words, its grid keys in the first
/// and its signs and scale in the second.
#[allow(clippy::too_many_arguments)]
pub proof fn law_block_weight<A: Scalar>(
    qs: Seq<u32>,
    d: Seq<A>,
    grid: Seq<u8>,
    signs: Seq<u8>,
    block: int,
    b: int,
    g: int,
    o: int,
    l: int,
)
    requires
        lossless::<A>(),
        0 <= b,
        0 <= g < 8,
        0 <= o < 4,
        0 <= l < 8,
    ensures
        ({
            let at = (block + b) * 16 + g * 2;
            let key = digits(qs[at] as int, 8 * o, 8);
            let word = qs[at + 1] as int;
            let mask = signs[digits(word, 7 * o, 7)] as int;
            let size = (2 * (word / 268435456) + 1) * grid[key * 8 + l];
            whole::<A>(8).times_spec(
                block_weight(qs, d, grid, signs, block, b * 256 + g * 32 + o * 8 + l),
            ) == d[block + b].times_spec(
                whole(
                    if digits(mask, l, 1) == 1 {
                        -size
                    } else {
                        size
                    },
                ),
            )
        }),
{
    let k = b * 256 + g * 32 + o * 8 + l;
    let at = (block + b) * 16 + g * 2;
    lemma_weight_place(b, g, o * 8 + l);
    assert(block_weight(qs, d, grid, signs, block, k) == group_value(
        group_scale(d[block + b], qs[at + 1]),
        qs[at],
        qs[at + 1],
        grid,
        signs,
        o * 8 + l,
    ));
    law_group_value::<A>(d[block + b], qs[at], qs[at + 1], grid, signs, o, l);
}

/// In exact arithmetic output `(r, m)` is the dot product of the row's activations with row
/// `m` of the row's expert: experts, and the rows of an expert, follow one another.
#[allow(clippy::too_many_arguments)]
pub proof fn law_stationary_outputs<A: Scalar, T: Storage<A>>(
    x: Seq<T>,
    qs: Seq<u32>,
    d: Seq<A>,
    grid: Seq<u8>,
    signs: Seq<u8>,
    expert_ids: Seq<u32>,
    before: Seq<T>,
    out: Seq<T>,
    m_total: int,
    m_out: int,
    k_in: int,
    r: int,
    m: int,
    v: spec_fn(int) -> A,
)
    requires
        lossless::<A>(),
        filled2(
            before,
            out,
            m_total,
            m_out,
            stationary_outputs::<A, T>(x, qs, d, grid, signs, expert_ids, k_in, m_out),
        ),
        0 <= k_in,
        k_in % 256 == 0,
        0 <= r < m_total,
        0 <= m < m_out,
        holds_values::<A, T>(x, r * k_in, k_in, v),
    ensures
        out[r * m_out + m] == T::narrow_spec(
            plain_sum(
                k_in,
                |k: int|
                    block_weight(
                        qs,
                        d,
                        grid,
                        signs,
                        (expert_ids[r] * m_out + m) * (k_in / 256),
                        k,
                    ).times_spec(v(k)),
            ),
        ),
{
    let block = (expert_ids[r] * m_out + m) * (k_in / 256);
    let terms = stationary_terms::<A, T>(x, qs, d, grid, signs, k_in, block, r);
    let plain = |k: int|
        block_weight(
            qs,
            d,
            grid,
            signs,
            (expert_ids[r] * m_out + m) * (k_in / 256),
            k,
        ).times_spec(v(k));
    law_reduction_is_plain_sum(32, k_in / 256 * 8, 32, terms);
    assert(k_in / 256 * 8 * 32 == k_in);
    assert forall|k: int| 0 <= k < k_in implies #[trigger] terms(k) == plain(k) by {
        assert(Storage::<A>::widen_spec(x[r * k_in + k]) == v(k));
    }
    lemma_sum_same(whole(0), 0, k_in, terms, plain);
    assert(cell(out, m_out, r, m) == (stationary_outputs::<A, T>(
        x,
        qs,
        d,
        grid,
        signs,
        expert_ids,
        k_in,
        m_out,
    ))(r, m));
}

} // verus!
