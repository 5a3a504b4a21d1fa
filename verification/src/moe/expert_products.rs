//! What the gathered expert products compute, told from the rows of the experts' matrices.
use crate::exact::{
    block_sums, keeps, law_reduction_is_plain_sum, lemma_blocks, lemma_sum_same, lossless,
    plain_sum, times_assoc, times_comm,
};
use crate::gemm::affine_groups::{affine_row_holds, group_dot, law_affine_terms_are_group_dot};
use crate::gemm::dequant_gemv::law_affine_row_is_plain_sum;
use crate::gemm::packed_rows::holds_values;
use crate::layout::{lemma_nibble_place, packs};
use crate::moe::affine::{affine_outputs, law_expert_product_is_gemv, source_rows};
use crate::moe::gather::{covered_rows, named_rows, routed_rows};
use crate::moe::iq2xxs::{
    byte_outputs, byte_weight, half_outputs, half_value, half_weight,
    law_half_product_is_plain_sum, law_view_product_is_plain_sum,
};
use crate::moe::moe_gather_qmm_expert_mpp::{expert_products, law_folded_product_is_plain_sum};
use crate::moe::moe_gemv_ws_iq2xxs::{
    first_block, law_extracted_words_decode_alike, stationary_outputs, stationary_terms,
};
use crate::moe::moe_mpp_tileplan::{covers, plan_outputs, planned_rows};
use crate::moe::nvfp4::{law_biased_product_is_plain_sum, nvfp4_outputs, nvfp4_terms};
use crate::primitives::{e2m1, e4m3};
use crate::quant::gguf_iq2_xxs_extract_qs::quant_words;
use crate::scalar::{whole, Scalar, Storage};
use crate::tensor::{cell, filled2, lemma_flat};
use vstd::arithmetic::div_mod::{
    lemma_div_pos_is_pos, lemma_fundamental_div_mod, lemma_fundamental_div_mod_converse,
};
use vstd::arithmetic::power2::lemma2_to64;
use vstd::prelude::*;

verus! {

/// Row `row` of a stack of NVFP4 matrices has the codes `q` and the block scales `s`.
#[allow(clippy::too_many_arguments)]
pub open spec fn nvfp4_row_holds<A: Scalar>(
    w: Seq<u32>,
    scales: Seq<u8>,
    global: A,
    k_in: int,
    block_size: int,
    row: int,
    q: spec_fn(int) -> int,
    s: spec_fn(int) -> A,
) -> bool {
    &&& packs(w, row * (k_in / 8), 4, k_in, q)
    &&& forall|k: int| 0 <= k < k_in ==> 0 <= #[trigger] q(k) < 16
    &&& forall|b: int|
        0 <= b < k_in / block_size ==> #[trigger] s(b) == e4m3::<A>(
            scales[row * (k_in / block_size) + b] as u32,
        ).times_spec(global)
}

/// The values of E2M1 codes times the activations.
pub open spec fn e2m1_products<A: Scalar>(
    q: spec_fn(int) -> int,
    v: spec_fn(int) -> A,
) -> spec_fn(int) -> A {
    |k: int| e2m1::<A>(q(k) as u32).times_spec(v(k))
}

/// `sum_b s(b) * sum_i e2m1(q(i)) * v(i)`, each block over its own columns.
pub open spec fn nvfp4_dot<A: Scalar>(
    k_in: int,
    block_size: int,
    q: spec_fn(int) -> int,
    s: spec_fn(int) -> A,
    v: spec_fn(int) -> A,
) -> A {
    plain_sum(k_in / block_size, block_sums(block_size, s, e2m1_products(q, v)))
}

/// In exact arithmetic the terms of an NVFP4 output add up to the blocks' sums.
#[allow(clippy::too_many_arguments)]
proof fn lemma_nvfp4_terms<A: Scalar, X: Storage<A>>(
    x: Seq<X>,
    w: Seq<u32>,
    scales: Seq<u8>,
    global: A,
    n_out: int,
    k_in: int,
    block_size: int,
    expert: int,
    r: int,
    c: int,
    q: spec_fn(int) -> int,
    s: spec_fn(int) -> A,
    v: spec_fn(int) -> A,
)
    requires
        lossless::<A>(),
        0 <= k_in,
        0 < block_size,
        k_in % block_size == 0,
        nvfp4_row_holds::<A>(w, scales, global, k_in, block_size, expert * n_out + c, q, s),
        holds_values::<A, X>(x, r * k_in, k_in, v),
    ensures
        plain_sum(
            k_in,
            nvfp4_terms::<A, X>(x, w, scales, global, n_out, k_in, block_size, expert, r, c),
        ) == nvfp4_dot(k_in, block_size, q, s, v),
{
    let terms = nvfp4_terms::<A, X>(
        x,
        w,
        scales,
        global,
        n_out,
        k_in,
        block_size,
        expert,
        r,
        c,
    );
    let prods = e2m1_products(q, v);
    let row = expert * n_out + c;
    let blocks = k_in / block_size;
    lemma_fundamental_div_mod(k_in, block_size);
    lemma_div_pos_is_pos(k_in, block_size);
    assert(blocks * block_size == block_size * blocks) by (nonlinear_arith);
    lemma2_to64();
    assert forall|b: int, i: int| 0 <= b < blocks && 0 <= i < block_size implies #[trigger] terms(
        b * block_size + i,
    ) == s(b).times_spec(prods(b * block_size + i)) by {
        let k = b * block_size + i;
        lemma_flat(blocks, block_size, b, i);
        lemma_fundamental_div_mod_converse(k, block_size, b, i);
        lemma_nibble_place(w, row * (k_in / 8), k);
        assert(q(k) % 16 == q(k));
        let word = w[row * (k_in / 8) + k / 8] >> (((k % 8) * 4) as u32);
        assert(word & 15 == word & 0xf);
        assert(Storage::<A>::widen_spec(x[r * k_in + k]) == v(k));
        let e = e2m1::<A>(q(k) as u32);
        assert(s(b) == e4m3::<A>(scales[row * blocks + b] as u32).times_spec(global));
        times_comm(e, s(b));
        times_assoc(s(b), e, v(k));
    }
    lemma_blocks(blocks, block_size, terms, s, prods);
}

/// In exact arithmetic output `(r, c)` of the gathered NVFP4 products is row `c` of the
/// expert that the row's index names, against the row's activations; a row whose index is all
/// ones is left alone.
#[allow(clippy::too_many_arguments)]
pub proof fn law_nvfp4_gather<A: Scalar, S: Storage<A>, T: Storage<A>>(
    x: Seq<T>,
    w: Seq<u32>,
    scales: Seq<u8>,
    indices: Seq<u32>,
    global: A,
    before: Seq<T>,
    out: Seq<T>,
    m_total: int,
    n_out: int,
    k_in: int,
    block_size: int,
    r: int,
    c: int,
    q: spec_fn(int) -> int,
    s: spec_fn(int) -> A,
    v: spec_fn(int) -> A,
)
    requires
        lossless::<A>(),
        keeps::<A, S>(),
        routed_rows(
            before,
            out,
            m_total,
            n_out,
            named_rows(indices),
            nvfp4_outputs::<A, S, T>(
                x,
                w,
                scales,
                indices,
                global,
                n_out,
                k_in,
                block_size,
            ),
        ),
        0 <= k_in,
        k_in % 32 == 0,
        0 < block_size,
        k_in % block_size == 0,
        0 <= r < m_total,
        0 <= c < n_out,
        nvfp4_row_holds::<A>(
            w,
            scales,
            global,
            k_in,
            block_size,
            indices[r] * n_out + c,
            q,
            s,
        ),
        holds_values::<A, T>(x, r * k_in, k_in, v),
    ensures
        indices[r] != u32::MAX ==> out[r * n_out + c] == T::narrow_spec(
            nvfp4_dot(k_in, block_size, q, s, v),
        ),
        indices[r] == u32::MAX ==> out[r * n_out + c] == before[r * n_out + c],
{
    let e = indices[r] as int;
    law_biased_product_is_plain_sum::<A, S, T>(
        x,
        w,
        scales,
        global,
        n_out,
        k_in,
        block_size,
        e,
        r,
        c,
        32,
    );
    lemma_nvfp4_terms::<A, T>(
        x,
        w,
        scales,
        global,
        n_out,
        k_in,
        block_size,
        e,
        r,
        c,
        q,
        s,
        v,
    );
    let value = nvfp4_outputs::<A, S, T>(
        x,
        w,
        scales,
        indices,
        global,
        n_out,
        k_in,
        block_size,
    );
    assert(cell(out, n_out, r, c) == (if (named_rows(indices))(r) {
        value(r, c)
    } else {
        cell(before, n_out, r, c)
    }));
}

/// In exact arithmetic output `(r, c)` of the expert-aligned NVFP4 products is row `c` of the
/// expert that the row's index names, against the row's activations; a row of an expert past
/// the grid is left alone.
#[allow(clippy::too_many_arguments)]
pub proof fn law_nvfp4_experts<A: Scalar, H: Storage<A>, X: Storage<A>, T: Storage<A>>(
    x: Seq<X>,
    w: Seq<u32>,
    scales: Seq<u8>,
    indices: Seq<u32>,
    global: A,
    before: Seq<T>,
    out: Seq<T>,
    m_total: int,
    n_out: int,
    k_in: int,
    block_size: int,
    n_experts: int,
    r: int,
    c: int,
    q: spec_fn(int) -> int,
    s: spec_fn(int) -> A,
    v: spec_fn(int) -> A,
)
    requires
        lossless::<A>(),
        keeps::<A, H>(),
        expert_products::<A, H, X, T>(
            x,
            w,
            scales,
            indices,
            before,
            out,
            m_total,
            n_out,
            k_in,
            block_size,
            global,
            n_experts,
        ),
        0 <= k_in,
        k_in % 32 == 0,
        0 < block_size,
        k_in % block_size == 0,
        0 <= r < m_total,
        0 <= c < n_out,
        nvfp4_row_holds::<A>(
            w,
            scales,
            global,
            k_in,
            block_size,
            indices[r] * n_out + c,
            q,
            s,
        ),
        holds_values::<A, X>(x, r * k_in, k_in, v),
    ensures
        indices[r] < n_experts ==> out[r * n_out + c] == T::narrow_spec(
            nvfp4_dot(k_in, block_size, q, s, v),
        ),
        indices[r] >= n_experts ==> out[r * n_out + c] == before[r * n_out + c],
        out.len() == before.len(),
        forall|i: int| m_total * n_out <= i < before.len() ==> #[trigger] out[i] == before[i],
{
    let e = indices[r] as int;
    law_folded_product_is_plain_sum::<A, H, X, T>(
        x,
        w,
        scales,
        global,
        n_out,
        k_in,
        block_size,
        e,
        r,
        c,
    );
    lemma_nvfp4_terms::<A, X>(
        x,
        w,
        scales,
        global,
        n_out,
        k_in,
        block_size,
        e,
        r,
        c,
        q,
        s,
        v,
    );
    assert(cell(out, n_out, r, c) == out[r * n_out + c]);
}

/// In exact arithmetic output `(r, c)` of the affine expert grid is row `c` of the expert that
/// the row's index names, against the row's activations; a row of an expert past the grid is
/// left alone.
#[allow(clippy::too_many_arguments)]
pub proof fn law_affine_grid<A: Scalar, S: Storage<A>, T: Storage<A>>(
    bits: int,
    x: Seq<T>,
    w: Seq<u32>,
    scales: Seq<T>,
    biases: Seq<T>,
    indices: Seq<u32>,
    before: Seq<T>,
    out: Seq<T>,
    m_total: int,
    n_out: int,
    k_in: int,
    group_size: int,
    n_experts: int,
    r: int,
    c: int,
    q: spec_fn(int) -> int,
    s: spec_fn(int) -> A,
    b: spec_fn(int) -> A,
    v: spec_fn(int) -> A,
)
    requires
        lossless::<A>(),
        keeps::<A, S>(),
        routed_rows(
            before,
            out,
            m_total,
            n_out,
            covered_rows(indices, n_experts),
            affine_outputs::<A, S, T>(
                bits,
                x,
                w,
                scales,
                biases,
                indices,
                n_out,
                k_in,
                group_size,
            ),
        ),
        bits == 2 || bits == 4 || bits == 8,
        0 <= k_in,
        k_in % 16 == 0,
        0 < group_size,
        k_in % group_size == 0,
        0 <= r < m_total,
        0 <= c < n_out,
        m_total * k_in <= x.len(),
        affine_row_holds::<A, T>(
            bits,
            w,
            scales,
            biases,
            k_in,
            group_size,
            indices[r] * n_out + c,
            q,
            s,
            b,
        ),
        holds_values::<A, T>(x, r * k_in, k_in, v),
    ensures
        indices[r] < n_experts ==> out[r * n_out + c] == T::narrow_spec(
            group_dot(k_in / group_size, group_size, q, s, b, v),
        ),
        indices[r] >= n_experts ==> out[r * n_out + c] == before[r * n_out + c],
{
    let e = indices[r] as int;
    lemma_words(bits, k_in);
    assert(r * k_in + k_in <= m_total * k_in && 0 <= r * k_in) by (nonlinear_arith)
        requires
            0 <= r < m_total,
            0 <= k_in,
    ;
    lemma_fundamental_div_mod(k_in + 31, 32);
    lemma_expert_cell::<A, S, T>(
        bits,
        x,
        source_rows(None),
        w,
        scales,
        biases,
        n_out,
        k_in,
        group_size,
        e,
        r,
        c,
        32,
        (k_in + 31) / 32,
        q,
        s,
        b,
        v,
    );
    let value = affine_outputs::<A, S, T>(
        bits,
        x,
        w,
        scales,
        biases,
        indices,
        n_out,
        k_in,
        group_size,
    );
    assert(cell(out, n_out, r, c) == (if (covered_rows(indices, n_experts))(r) {
        value(r, c)
    } else {
        cell(before, n_out, r, c)
    }));
}

/// Multiples of 16 columns fill whole words.
proof fn lemma_words(bits: int, k_in: int)
    requires
        bits == 2 || bits == 4 || bits == 8,
        k_in % 16 == 0,
    ensures
        k_in % (32int / bits) == 0,
{
    if bits == 2 {
        assert(32int / bits == 16);
    } else if bits == 4 {
        assert(32int / bits == 8);
    } else {
        assert(32int / bits == 4);
    }
}

/// In exact arithmetic a cell of an affine product is the group dot product of the expert's
/// row and the activations of the cell's source row.
#[allow(clippy::too_many_arguments)]
proof fn lemma_expert_cell<A: Scalar, S: Storage<A>, T: Storage<A>>(
    bits: int,
    x: Seq<T>,
    rows: spec_fn(int) -> int,
    w: Seq<u32>,
    scales: Seq<T>,
    biases: Seq<T>,
    n_out: int,
    k_in: int,
    group_size: int,
    expert: int,
    r: int,
    c: int,
    bk: int,
    n: int,
    q: spec_fn(int) -> int,
    s: spec_fn(int) -> A,
    b: spec_fn(int) -> A,
    v: spec_fn(int) -> A,
)
    requires
        lossless::<A>(),
        keeps::<A, S>(),
        bits == 2 || bits == 4 || bits == 8,
        0 < group_size,
        k_in % (32int / bits) == 0,
        k_in % group_size == 0,
        0 <= rows(r),
        rows(r) * k_in + k_in <= x.len(),
        0 <= bk,
        0 <= n,
        0 <= k_in <= n * bk,
        affine_row_holds::<A, T>(
            bits,
            w,
            scales,
            biases,
            k_in,
            group_size,
            expert * n_out + c,
            q,
            s,
            b,
        ),
        holds_values::<A, T>(x, rows(r) * k_in, k_in, v),
    ensures
        crate::moe::gather::finished::<A, T>(
            None,
            crate::tile::mma_cell(
                crate::moe::affine::staged_rows::<A, S, T>(x, rows, k_in),
                crate::moe::affine::affine_weights::<A, S, T>(
                    bits,
                    w,
                    scales,
                    biases,
                    n_out,
                    k_in,
                    group_size,
                    expert,
                ),
                r,
                c,
                bk,
                n,
            ),
        ) == T::narrow_spec(group_dot(k_in / group_size, group_size, q, s, b, v)),
{
    let own = x.subrange(rows(r) * k_in, rows(r) * k_in + k_in);
    let row = expert * n_out + c;
    law_expert_product_is_gemv::<A, S, T>(
        bits,
        x,
        rows,
        w,
        scales,
        biases,
        n_out,
        k_in,
        group_size,
        expert,
        r,
        c,
        bk,
        n,
        1,
    );
    law_affine_row_is_plain_sum::<A, T>(
        bits,
        w,
        scales,
        biases,
        own,
        k_in,
        group_size,
        row,
        1,
    );
    assert(0 <= rows(r) * k_in) by (nonlinear_arith)
        requires
            0 <= rows(r),
            0 <= k_in,
    ;
    assert forall|k: int| 0 <= k < k_in implies Storage::<A>::widen_spec(own[0 + k])
        == #[trigger] v(k) by {
        assert(own[k] == x[rows(r) * k_in + k]);
    }
    law_affine_terms_are_group_dot::<A, T>(
        bits,
        w,
        scales,
        biases,
        own,
        k_in,
        group_size,
        row,
        q,
        s,
        b,
        v,
    );
}

/// In exact arithmetic output `(r, c)` of a product over a tile plan is row `c` of the expert
/// of the tile that holds row `r`, against the activations that the row map names; a row of no
/// tile is left alone.
#[allow(clippy::too_many_arguments)]
pub proof fn law_planned_product<A: Scalar, S: Storage<A>, T: Storage<A>>(
    x: Seq<T>,
    w: Seq<u32>,
    scales: Seq<T>,
    biases: Seq<T>,
    expert: Seq<u32>,
    start: Seq<u32>,
    count: Seq<u32>,
    x_rows: Seq<u32>,
    before: Seq<T>,
    out: Seq<T>,
    num_tiles: int,
    n_out: int,
    k_in: int,
    group_size: int,
    t: int,
    r: int,
    c: int,
    q: spec_fn(int) -> int,
    s: spec_fn(int) -> A,
    b: spec_fn(int) -> A,
    v: spec_fn(int) -> A,
)
    requires
        lossless::<A>(),
        keeps::<A, S>(),
        planned_rows(
            before,
            out,
            expert,
            start,
            count,
            num_tiles,
            x_rows.len() as int,
            n_out,
            plan_outputs::<A, S, T>(
                x,
                w,
                scales,
                biases,
                x_rows,
                n_out,
                k_in,
                group_size,
            ),
        ),
        0 <= k_in,
        k_in % 16 == 0,
        0 < group_size,
        k_in % group_size == 0,
        0 <= t < num_tiles,
        start[t] <= r < start[t] + count[t],
        0 <= c < n_out,
        (x_rows[r] + 1) * k_in <= x.len(),
        affine_row_holds::<A, T>(
            4,
            w,
            scales,
            biases,
            k_in,
            group_size,
            expert[t] * n_out + c,
            q,
            s,
            b,
        ),
        holds_values::<A, T>(x, x_rows[r] * k_in, k_in, v),
    ensures
        out[r * n_out + c] == T::narrow_spec(
            group_dot(k_in / group_size, group_size, q, s, b, v),
        ),
        forall|u: int, d: int|
            0 <= u < x_rows.len() && 0 <= d < n_out && (forall|i: int|
                0 <= i < num_tiles ==> !(#[trigger] start[i] <= u < start[i] + count[i]))
                ==> #[trigger] out[u * n_out + d] == before[u * n_out + d],
        out.len() == before.len(),
        forall|i: int| x_rows.len() * n_out <= i < before.len() ==> #[trigger] out[i] == before[i],
{
    let e = expert[t] as int;
    lemma_words(4, k_in);
    assert(x_rows[r] * k_in + k_in == (x_rows[r] + 1) * k_in) by (nonlinear_arith);
    lemma_expert_cell::<A, S, T>(
        4,
        x,
        source_rows(Some(x_rows)),
        w,
        scales,
        biases,
        n_out,
        k_in,
        group_size,
        e,
        r,
        c,
        16,
        k_in / 16,
        q,
        s,
        b,
        v,
    );
    assert(covers(start, count, t, r));
    assert(cell(out, n_out, r, c) == (plan_outputs::<A, S, T>(
        x,
        w,
        scales,
        biases,
        x_rows,
        n_out,
        k_in,
        group_size,
    ))(e, r, c));
    assert forall|u: int, d: int|
        0 <= u < x_rows.len() && 0 <= d < n_out && (forall|i: int|
            0 <= i < num_tiles ==> !(#[trigger] start[i] <= u < start[i] + count[i]))
        implies #[trigger] out[u * n_out + d] == before[u * n_out + d] by {
        assert forall|i: int| 0 <= i < num_tiles implies !#[trigger] covers(start, count, i, u) by {
            assert(!(start[i] <= u < start[i] + count[i]));
        }
        assert(cell(out, n_out, u, d) == cell(before, n_out, u, d));
    }
}

/// In exact arithmetic output `(r, c)` of the product over raw bytes is the dot product of the
/// row's activations with weights `c * k_in ..` of the expert that the row's index names.
#[allow(clippy::too_many_arguments)]
pub proof fn law_byte_product<A: Scalar, S: Storage<A>, T: Storage<A>>(
    x: Seq<T>,
    view: Seq<u8>,
    grid: Seq<u8>,
    signs: Seq<u8>,
    indices: Seq<u32>,
    before: Seq<T>,
    out: Seq<T>,
    m_total: int,
    n_out: int,
    k_in: int,
    off: int,
    stride: int,
    r: int,
    c: int,
    v: spec_fn(int) -> A,
)
    requires
        lossless::<A>(),
        keeps::<A, S>(),
        keeps::<A, T>(),
        routed_rows(
            before,
            out,
            m_total,
            n_out,
            named_rows(indices),
            byte_outputs::<A, S, T>(x, view, grid, signs, indices, off, stride, k_in),
        ),
        0 <= k_in,
        k_in % 16 == 0,
        0 <= r < m_total,
        0 <= c < n_out,
        holds_values::<A, T>(x, r * k_in, k_in, v),
    ensures
        indices[r] != u32::MAX ==> out[r * n_out + c] == T::narrow_spec(
            plain_sum(
                k_in,
                |k: int|
                    byte_weight::<A>(
                        view,
                        grid,
                        signs,
                        off + indices[r] * stride,
                        c * k_in + k,
                    ).times_spec(v(k)),
            ),
        ),
        indices[r] == u32::MAX ==> out[r * n_out + c] == before[r * n_out + c],
{
    let e = indices[r] as int;
    law_view_product_is_plain_sum::<A, S, T>(
        x,
        view,
        grid,
        signs,
        off,
        stride,
        k_in,
        e,
        r,
        c,
    );
    let staged = |k: int|
        byte_weight::<A>(view, grid, signs, off + e * stride, c * k_in + k).times_spec(
            cell(x, k_in, r, k).widen_spec(),
        );
    let plain = |k: int|
        byte_weight::<A>(view, grid, signs, off + indices[r] * stride, c * k_in + k).times_spec(
            v(k),
        );
    assert forall|k: int| 0 <= k < k_in implies #[trigger] staged(k) == plain(k) by {
        assert(Storage::<A>::widen_spec(x[r * k_in + k]) == v(k));
    }
    lemma_sum_same(whole(0), 0, k_in, staged, plain);
    let value = byte_outputs::<A, S, T>(x, view, grid, signs, indices, off, stride, k_in);
    assert(cell(out, n_out, r, c) == (if (named_rows(indices))(r) {
        value(r, c)
    } else {
        cell(before, n_out, r, c)
    }));
}

/// In exact arithmetic output `(r, c)` of the product over raw half-words is the dot product
/// of the row's activations with weights `c * k_in ..` of the expert that the row's index
/// names.
#[allow(clippy::too_many_arguments)]
pub proof fn law_half_product<A: Scalar, S: Storage<A>, D: Storage<A>, T: Storage<A>>(
    x: Seq<T>,
    view: Seq<u16>,
    scales: Seq<D>,
    grid: Seq<u8>,
    signs: Seq<u8>,
    indices: Seq<u32>,
    before: Seq<T>,
    out: Seq<T>,
    m_total: int,
    n_out: int,
    k_in: int,
    off: int,
    stride: int,
    r: int,
    c: int,
    v: spec_fn(int) -> A,
)
    requires
        lossless::<A>(),
        keeps::<A, S>(),
        keeps::<A, T>(),
        routed_rows(
            before,
            out,
            m_total,
            n_out,
            named_rows(indices),
            half_outputs::<A, S, D, T>(
                x,
                view,
                scales,
                grid,
                signs,
                indices,
                off,
                stride,
                k_in,
            ),
        ),
        0 <= k_in,
        k_in % 32 == 0,
        0 <= r < m_total,
        0 <= c < n_out,
        holds_values::<A, T>(x, r * k_in, k_in, v),
    ensures
        indices[r] != u32::MAX ==> out[r * n_out + c] == T::narrow_spec(
            plain_sum(
                k_in,
                |k: int|
                    half_weight::<A, D>(
                        view,
                        scales,
                        grid,
                        signs,
                        (off + indices[r] * stride) / 2,
                        c * k_in + k,
                    ).times_spec(v(k)),
            ),
        ),
        indices[r] == u32::MAX ==> out[r * n_out + c] == before[r * n_out + c],
{
    let e = indices[r] as int;
    law_half_product_is_plain_sum::<A, S, D, T>(
        x,
        view,
        scales,
        grid,
        signs,
        off,
        stride,
        k_in,
        e,
        r,
        c,
    );
    let staged = |k: int|
        half_weight::<A, D>(
            view,
            scales,
            grid,
            signs,
            (off + e * stride) / 2,
            c * k_in + k,
        ).times_spec(cell(x, k_in, r, k).widen_spec());
    let plain = |k: int|
        half_weight::<A, D>(
            view,
            scales,
            grid,
            signs,
            (off + indices[r] * stride) / 2,
            c * k_in + k,
        ).times_spec(v(k));
    assert forall|k: int| 0 <= k < k_in implies #[trigger] staged(k) == plain(k) by {
        assert(Storage::<A>::widen_spec(x[r * k_in + k]) == v(k));
    }
    lemma_sum_same(whole(0), 0, k_in, staged, plain);
    let value = half_outputs::<A, S, D, T>(
        x,
        view,
        scales,
        grid,
        signs,
        indices,
        off,
        stride,
        k_in,
    );
    assert(cell(out, n_out, r, c) == (if (named_rows(indices))(r) {
        value(r, c)
    } else {
        cell(before, n_out, r, c)
    }));
}

/// In exact arithmetic output `(r, m)` of the weight-stationary GEMV is the dot product of the
/// row's activations with row `m` of the row's expert, as the raw blocks hold it: experts, and
/// the rows of an expert, follow one another.
#[allow(clippy::too_many_arguments)]
pub proof fn law_stationary_gemv<A: Scalar, T: Storage<A>>(
    x: Seq<T>,
    bytes: Seq<u8>,
    qs: Seq<u32>,
    d: Seq<A>,
    grid: Seq<u8>,
    signs: Seq<u8>,
    expert_ids: Seq<u32>,
    before: Seq<T>,
    out: Seq<T>,
    m_total: int,
    m_out: int,
    k_in: int,
    r: int,
    m: int,
    v: spec_fn(int) -> A,
)
    requires
        lossless::<A>(),
        filled2(
            before,
            out,
            m_total,
            m_out,
            stationary_outputs::<A, T>(x, qs, d, grid, signs, expert_ids, k_in, m_out),
        ),
        0 <= k_in,
        k_in % 256 == 0,
        0 <= r < m_total,
        0 <= m < m_out,
        66 * d.len() <= bytes.len(),
        (expert_ids[r] * m_out + m + 1) * (k_in / 256) <= d.len(),
        forall|i: int| 0 <= i < 16 * d.len() ==> #[trigger] qs[i] == (quant_words(bytes))(i),
        forall|i: int|
            0 <= i < d.len() ==> #[trigger] d[i] == half_value::<A>(
                (bytes[i * 66] as u32) | ((bytes[i * 66 + 1] as u32) << 8),
            ),
        holds_values::<A, T>(x, r * k_in, k_in, v),
    ensures
        out[r * m_out + m] == T::narrow_spec(
            plain_sum(
                k_in,
                |k: int|
                    byte_weight::<A>(
                        bytes,
                        grid,
                        signs,
                        0,
                        (expert_ids[r] * m_out + m) * k_in + k,
                    ).times_spec(v(k)),
            ),
        ),
{
    let e = expert_ids[r] as int;
    let bpr = k_in / 256;
    let row = e * m_out + m;
    let block = first_block(k_in, m_out, e, m);
    let terms = stationary_terms::<A, T>(x, qs, d, grid, signs, k_in, block, r);
    let plain = |k: int|
        byte_weight::<A>(bytes, grid, signs, 0, (expert_ids[r] * m_out + m) * k_in + k).times_spec(
            v(k),
        );
    law_reduction_is_plain_sum(32, bpr * 8, 32, terms);
    assert(bpr * 8 * 32 == k_in);
    assert(0 <= e * m_out) by (nonlinear_arith)
        requires
            0 <= e,
            0 <= m_out,
    ;
    assert(block == row * bpr && block * 256 == row * k_in && 0 <= block && block + bpr <= d.len())
        by (nonlinear_arith)
        requires
            block == row * bpr,
            k_in == bpr * 256,
            0 <= row,
            0 <= bpr,
            (row + 1) * bpr <= d.len(),
    ;
    assert forall|k: int| 0 <= k < k_in implies #[trigger] terms(k) == plain(k) by {
        let b = block + k / 256;
        assert(b < d.len());
        assert(d[b] == half_value::<A>(
            (bytes[b * 66] as u32) | ((bytes[b * 66 + 1] as u32) << 8),
        ));
        law_extracted_words_decode_alike::<A>(bytes, qs, d, grid, signs, block, k);
        assert(Storage::<A>::widen_spec(x[r * k_in + k]) == v(k));
    }
    lemma_sum_same(whole(0), 0, k_in, terms, plain);
    assert(cell(out, m_out, r, m) == (stationary_outputs::<A, T>(
        x,
        qs,
        d,
        grid,
        signs,
        expert_ids,
        k_in,
        m_out,
    ))(r, m));
}

} // verus!
