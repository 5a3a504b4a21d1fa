//! Grouped product over IQ2_XXS expert weights that are read in place, as raw bytes.
use crate::moe::gather::{gather_walk, named_rows, routed_rows, NO_EXPERT};
use crate::moe::iq2xxs::{blocks, byte_outputs, ByteTiles};
use crate::scalar::{Scalar, Storage};
use crate::tile::Shape;
use std::marker::PhantomData;
use vstd::prelude::*;

verus! {

/// `out[r, c] = x[r] . W[indices[r], c]`, tiles of 16 x 32 in steps of 16 columns, staged
/// through `S`. An expert's blocks start `expert * expert_byte_stride` bytes after
/// `tensor_byte_off`. Rows whose index is [`NO_EXPERT`] are left alone.
#[allow(clippy::too_many_arguments)]
pub fn iron_moe_bgemm_iq2xxs_view<A: Scalar, S: Storage<A>, T: Storage<A>>(
    x: &[T],
    view_u8: &[u8],
    grid: &[u8],
    signs: &[u8],
    indices: &[u32],
    out: &mut Vec<T>,
    m_total: u32,
    n_out: u32,
    k_in: u32,
    tensor_byte_off: u32,
    expert_byte_stride: u32,
)
    requires
        k_in % 16 == 0,
        n_out <= u32::MAX - 64,
        n_out * k_in <= u32::MAX,
        grid@.len() >= 2048,
        signs@.len() >= 128,
        m_total * k_in <= x@.len(),
        m_total <= indices@.len(),
        forall|r: int|
            0 <= r < m_total && #[trigger] indices@[r] != NO_EXPERT ==> tensor_byte_off
                + indices@[r] * expert_byte_stride + blocks(n_out as int, k_in as int) * 66
                <= view_u8@.len(),
        m_total <= u32::MAX - 256,
        m_total * n_out <= old(out)@.len(),
    ensures
        routed_rows(
            old(out)@,
            final(out)@,
            m_total as int,
            n_out as int,
            named_rows(indices@),
            byte_outputs::<A, S, T>(
                x@,
                view_u8@,
                grid@,
                signs@,
                indices@,
                tensor_byte_off as int,
                expert_byte_stride as int,
                k_in as int,
            ),
        ),
{
    let stage: PhantomData<S> = PhantomData;
    let src = ByteTiles {
        x,
        view: view_u8,
        grid,
        signs,
        off: tensor_byte_off as usize,
        stride: expert_byte_stride as usize,
        n_out: n_out as usize,
        k_in: k_in as usize,
        rows: m_total as usize,
        stage,
    };
    let shape = Shape { bm: 16, bn: 32, bk: 16, sm: 16, sn: 32 };
    gather_walk::<A, T, ByteTiles<S, T>>(
        &src,
        &shape,
        indices,
        out,
        m_total as usize,
        n_out as usize,
        1,
        k_in as usize,
        None,
    );
}

} // verus!
