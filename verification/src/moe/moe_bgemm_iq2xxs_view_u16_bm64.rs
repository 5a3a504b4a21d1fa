//! Grouped product over IQ2_XXS expert weights that are read in place, as raw half-words.
use crate::moe::gather::{gather_walk, named_rows, routed_rows, NO_EXPERT};
use crate::moe::iq2xxs::{blocks, half_outputs, HalfTiles};
use crate::scalar::{Scalar, Storage};
use crate::tile::Shape;
use std::marker::PhantomData;
use vstd::prelude::*;

verus! {

/// `out[r, c] = x[r] . W[indices[r], c]`, tiles of 64 x 64 in steps of 32 columns, staged
/// through `S`. The raw blocks are bound twice: as half-words, and as halves for their
/// scales. Rows whose index is [`NO_EXPERT`] are left alone.
#[allow(clippy::too_many_arguments)]
pub fn iron_moe_bgemm_iq2xxs_view_u16_bm64<
    A: Scalar,
    S: Storage<A>,
    D: Storage<A>,
    T: Storage<A>,
>(
    x: &[T],
    view_u16: &[u16],
    view_f16: &[D],
    grid: &[u8],
    signs: &[u8],
    indices: &[u32],
    out: &mut Vec<T>,
    m_total: u32,
    n_out: u32,
    k_in: u32,
    tensor_byte_off: u32,
    expert_byte_stride: u32,
)
    requires
        k_in % 32 == 0,
        n_out <= u32::MAX - 64,
        n_out * k_in <= u32::MAX,
        grid@.len() >= 2048,
        signs@.len() >= 128,
        m_total * k_in <= x@.len(),
        m_total <= indices@.len(),
        forall|r: int|
            0 <= r < m_total && #[trigger] indices@[r] != NO_EXPERT ==> half_fits(
                view_u16@.len() as int,
                view_f16@.len() as int,
                tensor_byte_off + indices@[r] * expert_byte_stride,
                blocks(n_out as int, k_in as int),
            ),
        m_total <= u32::MAX - 256,
        m_total * n_out <= old(out)@.len(),
    ensures
        routed_rows(
            old(out)@,
            final(out)@,
            m_total as int,
            n_out as int,
            named_rows(indices@),
            half_outputs::<A, S, D, T>(
                x@,
                view_u16@,
                view_f16@,
                grid@,
                signs@,
                indices@,
                tensor_byte_off as int,
                expert_byte_stride as int,
                k_in as int,
            ),
        ),
{
    let stage: PhantomData<S> = PhantomData;
    let src = HalfTiles {
        x,
        view: view_u16,
        scales: view_f16,
        grid,
        signs,
        off: tensor_byte_off as usize,
        stride: expert_byte_stride as usize,
        n_out: n_out as usize,
        k_in: k_in as usize,
        rows: m_total as usize,
        stage,
    };
    let shape = Shape { bm: 64, bn: 64, bk: 32, sm: 32, sn: 32 };
    gather_walk::<A, T, HalfTiles<S, D, T>>(
        &src,
        &shape,
        indices,
        out,
        m_total as usize,
        n_out as usize,
        16,
        k_in as usize,
        None,
    );
}

/// An expert whose blocks start at byte `start` lies inside both views.
pub open spec fn half_fits(halves: int, scales: int, start: int, blocks: int) -> bool {
    &&& start <= u32::MAX
    &&& start / 2 + blocks * 33 <= halves
    &&& start / 2 + blocks * 33 <= scales
}

} // verus!
