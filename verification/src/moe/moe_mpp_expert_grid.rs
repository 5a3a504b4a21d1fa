//! Expert-outer gather product over affine int2 / int4 / int8 weights.
//!
//! One threadgroup per 32-column tile and expert: it scans the sorted `indices` for its
//! expert's rows and walks them 16 at a time, in steps of 32 columns. A last step of 16
//! columns is filled up with zeros.
use crate::moe::affine::{affine_outputs, affine_stack_fits, AffineTiles};
use crate::moe::gather::{ascending, covered_rows, expert_grid, routed_rows};
use crate::moe::moe_gather_qmm_expert_mpp::lemma_fewer;
use crate::scalar::{Scalar, Storage};
use crate::tile::{Shape, TileSource};
use std::marker::PhantomData;
use vstd::prelude::*;

verus! {

/// `out[r, c] = x[r] . W[indices[r], c]` over sorted `indices`, tiles staged through `S`.
/// The grid is `[n_out / 32, n_experts]`; rows of experts past it are left alone.
#[allow(clippy::too_many_arguments)]
pub fn iron_moe_gather_qmm_mma_eg<A: Scalar, S: Storage<A>, T: Storage<A>>(
    bits: u32,
    x: &[T],
    w: &[u32],
    scales: &[T],
    biases: &[T],
    indices: &[u32],
    out: &mut Vec<T>,
    m_total: u32,
    n_out: u32,
    k_in: u32,
    group_size: u32,
    n_experts: u32,
)
    requires
        bits == 2 || bits == 4 || bits == 8,
        k_in % 16 == 0,
        k_in <= u32::MAX - 32,
        n_out % 32 == 0,
        group_size > 0,
        k_in as int % group_size as int == 0,
        m_total * k_in <= x@.len(),
        m_total <= indices@.len(),
        ascending(indices@, m_total as int),
        affine_stack_fits(
            bits as int,
            w@,
            scales@,
            biases@,
            n_out as int,
            k_in as int,
            group_size as int,
            n_experts as int,
        ),
        m_total <= u32::MAX - 256,
        m_total * n_out <= old(out)@.len(),
    ensures
        routed_rows(
            old(out)@,
            final(out)@,
            m_total as int,
            n_out as int,
            covered_rows(indices@, n_experts as int),
            affine_outputs::<A, S, T>(
                bits as int,
                x@,
                w@,
                scales@,
                biases@,
                indices@,
                n_out as int,
                k_in as int,
                group_size as int,
            ),
        ),
{
    let stage: PhantomData<S> = PhantomData;
    let depth: usize = (k_in as usize + 31) / 32 * 32;
    let src = AffineTiles {
        bits,
        x,
        w,
        scales,
        biases,
        map: None,
        n_out: n_out as usize,
        k_in: k_in as usize,
        group_size: group_size as usize,
        rows: m_total as usize,
        depth,
        stage,
    };
    proof {
        lemma_per_word(bits as int, k_in as int);
        assert forall|e: int| 0 <= e < n_experts implies #[trigger] TileSource::<A>::has_expert(
            &src,
            e,
        ) by {
            assert(0 <= k_in * bits) by (nonlinear_arith);
            lemma_fewer(e + 1, n_experts as int, n_out as int, k_in * bits / 32);
            lemma_fewer(e + 1, n_experts as int, n_out as int, k_in as int / group_size as int);
        }
    }
    let shape = Shape { bm: 16, bn: 32, bk: 32, sm: 16, sn: 32 };
    expert_grid::<A, T, AffineTiles<S, T>>(
        &src,
        &shape,
        indices,
        out,
        m_total as usize,
        n_out as usize,
        n_experts,
        32 / (bits as usize),
        depth,
        None,
        true,
    );
}

/// Multiples of 16 columns fill whole words.
proof fn lemma_per_word(bits: int, k_in: int)
    requires
        bits == 2 || bits == 4 || bits == 8,
        k_in % 16 == 0,
    ensures
        k_in % (32int / bits) == 0,
        32int % (32int / bits) == 0,
{
    if bits == 2 {
        assert(32int / bits == 16);
    } else if bits == 4 {
        assert(32int / bits == 8);
    } else {
        assert(32int / bits == 4);
    }
}

} // verus!
