//! Tiled GEMM over Q4 weights, eight activation rows and few columns per tile.
//!
//! The element values do not depend on the tile width.
use crate::gemm::gemm_q4_bm8::{gemm_q4, q4_product};
use crate::gemm::q4::q4_fits;
use crate::scalar::{Scalar, Storage};
use crate::tensor::filled2;
use vstd::prelude::*;

verus! {

/// `out[r, c] = sum_k x[r, k] * W[c, k]` in tiles of 8 by 16.
pub fn iron_gemm_q4_bm8n16<A: Scalar, S: Storage<A>, D: Storage<A>, T: Storage<A>>(
    x: &[T],
    qs: &[u32],
    scales: &[D],
    out: &mut Vec<T>,
    n_rows: u32,
    out_dim: u32,
    k_in: u32,
)
    requires
        k_in % 32 == 0,
        n_rows * k_in <= x@.len(),
        q4_fits(qs@, scales@, k_in as int, out_dim as int),
        n_rows * out_dim <= old(out)@.len(),
        n_rows + 64 <= u32::MAX,
        out_dim + 64 <= u32::MAX,
    ensures
        filled2(
            old(out)@,
            final(out)@,
            n_rows as int,
            out_dim as int,
            q4_product::<A, S, D, T>(x@, qs@, scales@, k_in as int),
        ),
{
    gemm_q4::<A, S, D, T>(16, x, qs, scales, out, n_rows, out_dim, k_in);
}

/// `out[r, c] = sum_k x[r, k] * W[c, k]` in tiles of 8 by 8.
pub fn iron_gemm_q4_bm8n8<A: Scalar, S: Storage<A>, D: Storage<A>, T: Storage<A>>(
    x: &[T],
    qs: &[u32],
    scales: &[D],
    out: &mut Vec<T>,
    n_rows: u32,
    out_dim: u32,
    k_in: u32,
)
    requires
        k_in % 32 == 0,
        n_rows * k_in <= x@.len(),
        q4_fits(qs@, scales@, k_in as int, out_dim as int),
        n_rows * out_dim <= old(out)@.len(),
        n_rows + 64 <= u32::MAX,
        out_dim + 64 <= u32::MAX,
    ensures
        filled2(
            old(out)@,
            final(out)@,
            n_rows as int,
            out_dim as int,
            q4_product::<A, S, D, T>(x@, qs@, scales@, k_in as int),
        ),
{
    gemm_q4::<A, S, D, T>(8, x, qs, scales, out, n_rows, out_dim, k_in);
}

} // verus!
