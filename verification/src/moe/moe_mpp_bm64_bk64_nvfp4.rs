//! Grouped NVFP4 expert product with 64 x 64 tiles, four simdgroups to a tile.
//!
//! Activations and weights are both staged under a factor of `2^-14`, so that no staged
//! product leaves the range of a half, and the accumulators are multiplied by `2^28` when
//! they are stored.
use crate::moe::gather::{gather_walk, named_rows, routed_rows, NO_EXPERT};
use crate::moe::nvfp4::{nvfp4_fits, nvfp4_outputs, Nvfp4Tiles};
use crate::scalar::{Scalar, Storage};
use crate::tile::Shape;
use std::marker::PhantomData;
use vstd::prelude::*;

verus! {

/// `out[r, c] = x[r] . W[indices[r], c]`, tiles staged through `S`. The grid is
/// `[n_out / 64, ceil(m_total / 64)]`. Rows whose index is [`NO_EXPERT`] are left alone.
#[allow(clippy::too_many_arguments)]
pub fn iron_nvfp4_moe_gather_qmm_bm64_bk64_mpp<A: Scalar, S: Storage<A>, T: Storage<A>>(
    x: &[T],
    w: &[u32],
    scales: &[u8],
    indices: &[u32],
    out: &mut Vec<T>,
    m_total: u32,
    n_out: u32,
    k_in: u32,
    block_size: u32,
    global: A,
)
    requires
        k_in % 64 == 0,
        n_out % 64 == 0,
        block_size > 0,
        k_in as int % block_size as int == 0,
        m_total * k_in <= x@.len(),
        m_total <= indices@.len(),
        forall|r: int|
            0 <= r < m_total && #[trigger] indices@[r] != NO_EXPERT ==> nvfp4_fits(
                w@,
                scales@,
                n_out as int,
                k_in as int,
                block_size as int,
                indices@[r] + 1,
            ),
        m_total <= u32::MAX - 256,
        m_total * n_out <= old(out)@.len(),
    ensures
        routed_rows(
            old(out)@,
            final(out)@,
            m_total as int,
            n_out as int,
            named_rows(indices@),
            nvfp4_outputs::<A, S, T>(
                x@,
                w@,
                scales@,
                indices@,
                global,
                n_out as int,
                k_in as int,
                block_size as int,
            ),
        ),
{
    let stage: PhantomData<S> = PhantomData;
    let src = Nvfp4Tiles {
        x,
        w,
        scales,
        global,
        bias: A::dyadic(1, -14),
        n_out: n_out as usize,
        k_in: k_in as usize,
        block_size: block_size as usize,
        rows: m_total as usize,
        stage,
    };
    let shape = Shape { bm: 64, bn: 64, bk: 32, sm: 32, sn: 32 };
    gather_walk::<A, T, Nvfp4Tiles<A, S, T>>(
        &src,
        &shape,
        indices,
        out,
        m_total as usize,
        n_out as usize,
        8,
        k_in as usize,
        Some(A::dyadic(1, 28)),
    );
}

} // verus!
