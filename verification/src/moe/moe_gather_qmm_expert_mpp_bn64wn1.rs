//! The expert-aligned NVFP4 gather product with another split of its tiles: each of four
//! simdgroups owns 16 rows and all 64 columns, as two accumulators of 32 columns.
use crate::moe::moe_gather_qmm_expert_mpp::{expert_launch, expert_products, launch};
use crate::scalar::{Scalar, Storage};
use crate::tile::Shape;
use vstd::prelude::*;

verus! {

/// As [`iron_nvfp4_moe_gather_qmm_expert_mpp`], bit for bit, with sub-tiles of 16 x 32.
///
/// [`iron_nvfp4_moe_gather_qmm_expert_mpp`]:
///     crate::moe::moe_gather_qmm_expert_mpp::iron_nvfp4_moe_gather_qmm_expert_mpp
#[allow(clippy::too_many_arguments)]
pub fn iron_nvfp4_moe_gather_qmm_expert_mpp_bn64wn1<
    A: Scalar,
    H: Storage<A>,
    X: Storage<A>,
    T: Storage<A>,
>(
    x: &[X],
    w: &[u32],
    scales: &[u8],
    indices: &[u32],
    out: &mut Vec<T>,
    m_total: u32,
    n_out: u32,
    k_in: u32,
    block_size: u32,
    global: A,
    n_experts: u32,
)
    requires
        expert_launch(x@, w@, scales@, indices@, m_total, n_out, k_in, block_size, n_experts),
        m_total * n_out <= old(out)@.len(),
    ensures
        expert_products::<A, H, X, T>(
            x@,
            w@,
            scales@,
            indices@,
            old(out)@,
            final(out)@,
            m_total as int,
            n_out as int,
            k_in as int,
            block_size as int,
            global,
            n_experts as int,
        ),
{
    let shape = Shape { bm: 64, bn: 64, bk: 32, sm: 16, sn: 32 };
    launch::<A, H, X, T>(
        &shape,
        x,
        w,
        scales,
        indices,
        out,
        m_total,
        n_out,
        k_in,
        block_size,
        global,
        n_experts,
    )
}

} // verus!
