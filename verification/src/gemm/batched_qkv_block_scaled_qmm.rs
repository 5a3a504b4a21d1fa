//! Fused batched Q/K/V block-scaled dequantising GEMM: for each of three weight matrices,
//! `out[m, n] = sum_k dequant(W[n, k]) * x[m, k]`.
use crate::exact::law_equal_terms_reduce_alike;
use crate::gemm::block_scaled_matmul::{
    scaled_fits, scaled_row, scaled_rows, scaled_terms, Codes, ScaledRow, Scales,
};
use crate::scalar::{run_group, Scalar, Storage};
use crate::tensor::{cell, filled2, put};
use vstd::prelude::*;

verus! {

/// The outputs of one projection: token `m`, output row `n`.
pub open spec fn projected<'a, A: Scalar, S: Storage<A>, T: Storage<A>>(
    codes: Codes<'a>,
    scales: Scales<'a, A, S>,
    x: Seq<T>,
    in_dim: int,
    block_size: int,
    lanes: int,
) -> spec_fn(int, int) -> T {
    |m: int, n: int|
        T::narrow_spec(
            scaled_row::<A, S, T>(codes, scales, x, m * in_dim, in_dim, block_size, n, lanes),
        )
}

/// The threadgroups of one matrix: `grid_rows` per token, of which those past `out` rest.
#[allow(clippy::too_many_arguments)]
#[verifier::loop_isolation(false)]
fn project<'a, A: Scalar, S: Storage<A>, T: Storage<A>>(
    x: &[T],
    codes: &Codes<'a>,
    scales: &Scales<'a, A, S>,
    buf: &mut Vec<T>,
    out: usize,
    in_dim: usize,
    block_size: usize,
    tokens: usize,
    grid_rows: usize,
    lanes: usize,
)
    requires
        scaled_fits(*codes, *scales, in_dim as int, block_size as int, out as int),
        tokens * in_dim <= x@.len(),
        tokens * out <= old(buf)@.len(),
        out <= grid_rows,
        lanes > 0,
        in_dim + lanes <= usize::MAX,
    ensures
        filled2(
            old(buf)@,
            final(buf)@,
            tokens as int,
            out as int,
            projected::<A, S, T>(
                *codes,
                *scales,
                x@,
                in_dim as int,
                block_size as int,
                lanes as int,
            ),
        ),
{
    let ghost before = buf@;
    let ghost value = projected::<A, S, T>(
        *codes,
        *scales,
        x@,
        in_dim as int,
        block_size as int,
        lanes as int,
    );
    let units: usize = match codes {
        Codes::E2m1(_) => in_dim / 8,
        _ => in_dim,
    };
    let mut mr: usize = 0;
    while mr < tokens
        invariant
            mr <= tokens,
            buf@.len() == before.len(),
            forall|r: int, c: int|
                0 <= r < mr && 0 <= c < out ==> #[trigger] cell(buf@, out as int, r, c) == value(
                    r,
                    c,
                ),
            forall|i: int| tokens * out <= i < buf@.len() ==> #[trigger] buf@[i] == before[i],
        decreases tokens - mr,
    {
        let mut row: usize = 0;
        while row < grid_rows
            invariant
                row <= grid_rows,
                buf@.len() == before.len(),
                forall|r: int, c: int|
                    0 <= c < out && (0 <= r < mr || r == mr && c < row) ==> #[trigger] cell(
                        buf@,
                        out as int,
                        r,
                        c,
                    ) == value(r, c),
                forall|i: int| tokens * out <= i < buf@.len() ==> #[trigger] buf@[i] == before[i],
            decreases grid_rows - row,
        {
            if row < out {
                proof {
                    assert(x@.len() == x.len());
                    assert(mr * in_dim + in_dim <= tokens * in_dim) by (nonlinear_arith)
                        requires
                            mr + 1 <= tokens,
                    ;
                    assert(0 <= mr * in_dim) by (nonlinear_arith);
                }
                let work = ScaledRow {
                    codes,
                    scales,
                    x,
                    off: mr * in_dim,
                    in_dim,
                    block_size,
                    row,
                    rows: Ghost(out as int),
                };
                let total: A = run_group(&work, units, lanes);
                put(buf, Ghost(tokens as int), out, mr, row, T::narrow(total));
            }
            row = row + 1;
        }
        mr = mr + 1;
    }
}

/// Batched Q/K/V projection over `m` tokens. The grid is
/// `[max(out_q, out_k, out_v), m, 3]`, with `lsize` lanes to a threadgroup.
#[allow(clippy::too_many_arguments)]
pub fn iron<'a, A: Scalar, S: Storage<A>, T: Storage<A>>(
    x: &[T],
    w_q: &Codes<'a>,
    scales_q: &Scales<'a, A, S>,
    w_k: &Codes<'a>,
    scales_k: &Scales<'a, A, S>,
    w_v: &Codes<'a>,
    scales_v: &Scales<'a, A, S>,
    q_buf: &mut Vec<T>,
    k_buf: &mut Vec<T>,
    v_buf: &mut Vec<T>,
    out_q: u32,
    out_k: u32,
    out_v: u32,
    in_dim: u32,
    block_size: u32,
    m: u32,
    lsize: u32,
)
    requires
        scaled_fits(*w_q, *scales_q, in_dim as int, block_size as int, out_q as int),
        scaled_fits(*w_k, *scales_k, in_dim as int, block_size as int, out_k as int),
        scaled_fits(*w_v, *scales_v, in_dim as int, block_size as int, out_v as int),
        m * in_dim <= x@.len(),
        m * out_q <= old(q_buf)@.len(),
        m * out_k <= old(k_buf)@.len(),
        m * out_v <= old(v_buf)@.len(),
        lsize > 0,
        in_dim + lsize <= u32::MAX,
    ensures
        filled2(
            old(q_buf)@,
            final(q_buf)@,
            m as int,
            out_q as int,
            projected::<A, S, T>(
                *w_q,
                *scales_q,
                x@,
                in_dim as int,
                block_size as int,
                lsize as int,
            ),
        ),
        filled2(
            old(k_buf)@,
            final(k_buf)@,
            m as int,
            out_k as int,
            projected::<A, S, T>(
                *w_k,
                *scales_k,
                x@,
                in_dim as int,
                block_size as int,
                lsize as int,
            ),
        ),
        filled2(
            old(v_buf)@,
            final(v_buf)@,
            m as int,
            out_v as int,
            projected::<A, S, T>(
                *w_v,
                *scales_v,
                x@,
                in_dim as int,
                block_size as int,
                lsize as int,
            ),
        ),
{
    let out_qk: u32 = if out_q < out_k {
        out_k
    } else {
        out_q
    };
    let grid: usize = if out_qk < out_v {
        out_v as usize
    } else {
        out_qk as usize
    };
    let (n, b, t, l) = (in_dim as usize, block_size as usize, m as usize, lsize as usize);
    project::<A, S, T>(x, w_q, scales_q, q_buf, out_q as usize, n, b, t, grid, l);
    project::<A, S, T>(x, w_k, scales_k, k_buf, out_k as usize, n, b, t, grid, l);
    project::<A, S, T>(x, w_v, scales_v, v_buf, out_v as usize, n, b, t, grid, l);
}

/// Every token of a projection gets, bit for bit, what the single-token GEMV gives on its own
/// activations.
#[allow(clippy::too_many_arguments)]
pub proof fn law_tokens_are_single<'a, A: Scalar, S: Storage<A>, T: Storage<A>>(
    codes: Codes<'a>,
    scales: Scales<'a, A, S>,
    x: Seq<T>,
    in_dim: int,
    block_size: int,
    lanes: int,
    token: int,
    row: int,
)
    requires
        0 <= in_dim,
        0 <= token,
        (token + 1) * in_dim <= x.len(),
        lanes > 0,
    ensures
        (projected::<A, S, T>(codes, scales, x, in_dim, block_size, lanes))(token, row) == (
        scaled_rows::<A, S, T>(
            codes,
            scales,
            x.subrange(token * in_dim, (token + 1) * in_dim),
            in_dim,
            block_size,
            lanes,
        ))(row),
{
    assert(0 <= token * in_dim && (token + 1) * in_dim == token * in_dim + in_dim)
        by (nonlinear_arith)
        requires
            0 <= token,
            0 <= in_dim,
    ;
    let own = x.subrange(token * in_dim, (token + 1) * in_dim);
    let f = scaled_terms::<A, S, T>(codes, scales, x, token * in_dim, in_dim, block_size, row);
    let g = scaled_terms::<A, S, T>(codes, scales, own, 0, in_dim, block_size, row);
    let unit = codes.stride();
    let n = in_dim / unit;
    assert(n * unit <= in_dim) by {
        assert(codes.stride() == 8 || codes.stride() == 1);
    }
    assert forall|k: int| 0 <= k < n * unit implies #[trigger] f(k) == g(k) by {
        assert(own[0 + k] == x[token * in_dim + k]);
    }
    law_equal_terms_reduce_alike(lanes, n, unit, f, g);
}

} // verus!
