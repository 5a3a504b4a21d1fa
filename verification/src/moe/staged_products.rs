//! What the gathered expert products compute where only the staging is rounded.
//!
//! Both operands of a product are rounded to the staging type, once each; nothing else is
//! until the result is stored.
use crate::exact::{lemma_staged_cell, lossless, plain_sum};
use crate::gemm::affine_groups::affine_row_holds;
use crate::gemm::gemm_q4_bm8::{q4_product, staged_inputs, staged_q4};
use crate::gemm::packed_rows::{holds_values, q4_row_holds};
use crate::layout::{lemma_code_digits, lemma_complement, lemma_nibble_place};
use crate::moe::affine::{affine_outputs, affine_weights, source_rows, staged_rows};
use crate::moe::expert_products::nvfp4_row_holds;
use crate::moe::gather::{covered_rows, named_rows, routed_rows};
use crate::moe::iq2xxs::{
    byte_outputs, byte_weight, byte_weights, half_outputs, half_weight, half_weights,
};
use crate::moe::moe_gather_qmm_expert_mpp::{
    expert_products, folded_weights, lemma_doubled, plain_rows,
};
use crate::moe::moe_mpp_tileplan::{covers, plan_outputs, planned_rows};
use crate::moe::nvfp4::{biased_rows, nvfp4_outputs, nvfp4_weights};
use crate::primitives::e2m1;
use crate::scalar::{rounded, whole, Scalar, Storage};
use crate::tensor::{cell, filled2};
use vstd::arithmetic::div_mod::lemma_fundamental_div_mod;
use vstd::arithmetic::power2::{lemma2_to64, lemma_pow2_pos, pow2};
use vstd::prelude::*;

verus! {

/// Products of staged weights with staged activations.
pub open spec fn staged_products<A: Scalar, S: Storage<A>>(
    weight: spec_fn(int) -> A,
    value: spec_fn(int) -> A,
) -> spec_fn(int) -> A {
    |k: int| rounded::<A, S>(weight(k)).times_spec(rounded::<A, S>(value(k)))
}

/// The tiled Q4 product: weights `scale * code` and activations, each rounded once.
#[allow(clippy::too_many_arguments)]
pub proof fn law_staged_q4_gemm<A: Scalar, S: Storage<A>, D: Storage<A>, T: Storage<A>>(
    before: Seq<T>,
    out: Seq<T>,
    x: Seq<T>,
    qs: Seq<u32>,
    scales: Seq<D>,
    n_rows: int,
    out_dim: int,
    k_in: int,
    r: int,
    c: int,
    q: spec_fn(int) -> int,
    s: spec_fn(int) -> A,
    v: spec_fn(int) -> A,
)
    requires
        lossless::<A>(),
        filled2(before, out, n_rows, out_dim, q4_product::<A, S, D, T>(x, qs, scales, k_in)),
        0 <= k_in,
        k_in % 32 == 0,
        0 <= r < n_rows,
        0 <= c < out_dim,
        q4_row_holds::<A, D>(qs, scales, k_in, c, q, s),
        holds_values::<A, T>(x, r * k_in, k_in, v),
    ensures
        out[r * out_dim + c] == T::narrow_spec(
            plain_sum(
                k_in,
                staged_products::<A, S>(|k: int| s(k / 32).times_spec(whole(q(k))), v),
            ),
        ),
{
    let weight = |k: int| s(k / 32).times_spec(whole::<A>(q(k)));
    let (values, weights) = (
        |k: int| rounded::<A, S>(v(k)),
        |k: int| rounded::<A, S>(weight(k)),
    );
    let (xs, ws) = (staged_inputs::<A, S, T>(x, k_in), staged_q4::<A, S, D>(qs, scales, k_in));
    lemma2_to64();
    assert forall|k: int| 0 <= k < k_in implies xs(r, k) == #[trigger] values(k) by {
        assert(Storage::<A>::widen_spec(x[r * k_in + k]) == v(k));
    }
    assert forall|k: int| 0 <= k < k_in implies ws(c, k) == #[trigger] weights(k) by {
        assert(0 <= k / 32 < k_in / 32);
        assert(Storage::<A>::widen_spec(scales[c * (k_in / 32) + k / 32]) == s(k / 32));
        lemma_nibble_place(qs, c * (k_in / 32 * 4), k);
        lemma_complement(q(k), q(k) % 16, 8);
    }
    assert(k_in / 16 * 16 == k_in);
    lemma_staged_cell(xs, ws, r, c, 16, k_in / 16, k_in, values, weights);
    assert(staged_products::<A, S>(weight, v) =~= |k: int| weights(k).times_spec(values(k)));
    assert(cell(out, out_dim, r, c) == (q4_product::<A, S, D, T>(x, qs, scales, k_in))(r, c));
}

/// A cell of an affine product: weights `scale * code + bias` and activations, each rounded
/// once.
#[allow(clippy::too_many_arguments)]
proof fn lemma_staged_affine<A: Scalar, S: Storage<A>, T: Storage<A>>(
    bits: int,
    x: Seq<T>,
    rows: spec_fn(int) -> int,
    w: Seq<u32>,
    scales: Seq<T>,
    biases: Seq<T>,
    n_out: int,
    k_in: int,
    group_size: int,
    expert: int,
    r: int,
    c: int,
    bk: int,
    n: int,
    q: spec_fn(int) -> int,
    s: spec_fn(int) -> A,
    b: spec_fn(int) -> A,
    v: spec_fn(int) -> A,
)
    requires
        lossless::<A>(),
        bits == 2 || bits == 4 || bits == 8,
        0 < group_size,
        k_in % group_size == 0,
        0 <= bk,
        0 <= n,
        0 <= k_in <= n * bk,
        affine_row_holds::<A, T>(
            bits,
            w,
            scales,
            biases,
            k_in,
            group_size,
            expert * n_out + c,
            q,
            s,
            b,
        ),
        holds_values::<A, T>(x, rows(r) * k_in, k_in, v),
    ensures
        crate::tile::mma_cell(
            staged_rows::<A, S, T>(x, rows, k_in),
            affine_weights::<A, S, T>(
                bits,
                w,
                scales,
                biases,
                n_out,
                k_in,
                group_size,
                expert,
            ),
            r,
            c,
            bk,
            n,
        ) == plain_sum(
            k_in,
            staged_products::<A, S>(
                |k: int| s(k / group_size).times_spec(whole(q(k))).plus_spec(b(k / group_size)),
                v,
            ),
        ),
{
    let weight = |k: int|
        s(k / group_size).times_spec(whole::<A>(q(k))).plus_spec(b(k / group_size));
    let (values, weights) = (
        |k: int| rounded::<A, S>(v(k)),
        |k: int| rounded::<A, S>(weight(k)),
    );
    let xs = staged_rows::<A, S, T>(x, rows, k_in);
    let ws = affine_weights::<A, S, T>(
        bits,
        w,
        scales,
        biases,
        n_out,
        k_in,
        group_size,
        expert,
    );
    let row = expert * n_out + c;
    assert forall|k: int| 0 <= k < k_in implies xs(r, k) == #[trigger] values(k) by {
        assert(Storage::<A>::widen_spec(x[rows(r) * k_in + k]) == v(k));
    }
    assert forall|k: int| 0 <= k < k_in implies ws(c, k) == #[trigger] weights(k) by {
        let g = k / group_size;
        crate::gemm::dequant_gemv::lemma_group_in(k_in, group_size, k);
        lemma_code_digits(w, row * (k_in * bits / 32), bits, k);
        lemma_pow2_pos(bits as nat);
        vstd::arithmetic::div_mod::lemma_small_mod(q(k) as nat, pow2(bits as nat));
        let at = row * (k_in / group_size) + g;
        assert(Storage::<A>::widen_spec(scales[at]) == s(g));
        assert(Storage::<A>::widen_spec(biases[at]) == b(g));
    }
    lemma_staged_cell(xs, ws, r, c, bk, n, k_in, values, weights);
    assert(staged_products::<A, S>(weight, v) =~= |k: int| weights(k).times_spec(values(k)));
}

/// The affine expert grid: weights `scale * code + bias` and activations, each rounded once.
#[allow(clippy::too_many_arguments)]
pub proof fn law_staged_affine_grid<A: Scalar, S: Storage<A>, T: Storage<A>>(
    bits: int,
    x: Seq<T>,
    w: Seq<u32>,
    scales: Seq<T>,
    biases: Seq<T>,
    indices: Seq<u32>,
    before: Seq<T>,
    out: Seq<T>,
    m_total: int,
    n_out: int,
    k_in: int,
    group_size: int,
    n_experts: int,
    r: int,
    c: int,
    q: spec_fn(int) -> int,
    s: spec_fn(int) -> A,
    b: spec_fn(int) -> A,
    v: spec_fn(int) -> A,
)
    requires
        lossless::<A>(),
        routed_rows(
            before,
            out,
            m_total,
            n_out,
            covered_rows(indices, n_experts),
            affine_outputs::<A, S, T>(
                bits,
                x,
                w,
                scales,
                biases,
                indices,
                n_out,
                k_in,
                group_size,
            ),
        ),
        bits == 2 || bits == 4 || bits == 8,
        0 <= k_in,
        0 < group_size,
        k_in % group_size == 0,
        0 <= r < m_total,
        0 <= c < n_out,
        indices[r] < n_experts,
        affine_row_holds::<A, T>(
            bits,
            w,
            scales,
            biases,
            k_in,
            group_size,
            indices[r] * n_out + c,
            q,
            s,
            b,
        ),
        holds_values::<A, T>(x, r * k_in, k_in, v),
    ensures
        out[r * n_out + c] == T::narrow_spec(
            plain_sum(
                k_in,
                staged_products::<A, S>(
                    |k: int| s(k / group_size).times_spec(whole(q(k))).plus_spec(b(k / group_size)),
                    v,
                ),
            ),
        ),
{
    lemma_fundamental_div_mod(k_in + 31, 32);
    lemma_staged_affine::<A, S, T>(
        bits,
        x,
        source_rows(None),
        w,
        scales,
        biases,
        n_out,
        k_in,
        group_size,
        indices[r] as int,
        r,
        c,
        32,
        (k_in + 31) / 32,
        q,
        s,
        b,
        v,
    );
    let value = affine_outputs::<A, S, T>(
        bits,
        x,
        w,
        scales,
        biases,
        indices,
        n_out,
        k_in,
        group_size,
    );
    assert((covered_rows(indices, n_experts))(r));
    assert(cell(out, n_out, r, c) == value(r, c));
}

/// The product over a tile plan: weights `scale * code + bias` and activations, each rounded
/// once.
#[allow(clippy::too_many_arguments)]
pub proof fn law_staged_planned_product<A: Scalar, S: Storage<A>, T: Storage<A>>(
    x: Seq<T>,
    w: Seq<u32>,
    scales: Seq<T>,
    biases: Seq<T>,
    expert: Seq<u32>,
    start: Seq<u32>,
    count: Seq<u32>,
    x_rows: Seq<u32>,
    before: Seq<T>,
    out: Seq<T>,
    num_tiles: int,
    n_out: int,
    k_in: int,
    group_size: int,
    t: int,
    r: int,
    c: int,
    q: spec_fn(int) -> int,
    s: spec_fn(int) -> A,
    b: spec_fn(int) -> A,
    v: spec_fn(int) -> A,
)
    requires
        lossless::<A>(),
        planned_rows(
            before,
            out,
            expert,
            start,
            count,
            num_tiles,
            x_rows.len() as int,
            n_out,
            plan_outputs::<A, S, T>(
                x,
                w,
                scales,
                biases,
                x_rows,
                n_out,
                k_in,
                group_size,
            ),
        ),
        0 <= k_in,
        k_in % 16 == 0,
        0 < group_size,
        k_in % group_size == 0,
        0 <= t < num_tiles,
        start[t] <= r < start[t] + count[t],
        0 <= c < n_out,
        affine_row_holds::<A, T>(
            4,
            w,
            scales,
            biases,
            k_in,
            group_size,
            expert[t] * n_out + c,
            q,
            s,
            b,
        ),
        holds_values::<A, T>(x, x_rows[r] * k_in, k_in, v),
    ensures
        out[r * n_out + c] == T::narrow_spec(
            plain_sum(
                k_in,
                staged_products::<A, S>(
                    |k: int| s(k / group_size).times_spec(whole(q(k))).plus_spec(b(k / group_size)),
                    v,
                ),
            ),
        ),
{
    lemma_staged_affine::<A, S, T>(
        4,
        x,
        source_rows(Some(x_rows)),
        w,
        scales,
        biases,
        n_out,
        k_in,
        group_size,
        expert[t] as int,
        r,
        c,
        16,
        k_in / 16,
        q,
        s,
        b,
        v,
    );
    assert(covers(start, count, t, r));
    assert(cell(out, n_out, r, c) == (plan_outputs::<A, S, T>(
        x,
        w,
        scales,
        biases,
        x_rows,
        n_out,
        k_in,
        group_size,
    ))(expert[t] as int, r, c));
}

/// The code and the block of a column of an NVFP4 row.
proof fn lemma_nvfp4_column<A: Scalar>(
    w: Seq<u32>,
    scales: Seq<u8>,
    global: A,
    n_out: int,
    k_in: int,
    block_size: int,
    expert: int,
    c: int,
    q: spec_fn(int) -> int,
    s: spec_fn(int) -> A,
    k: int,
)
    requires
        nvfp4_row_holds::<A>(w, scales, global, k_in, block_size, expert * n_out + c, q, s),
        0 < block_size,
        k_in % block_size == 0,
        0 <= k < k_in,
    ensures
        crate::moe::nvfp4::nvfp4_code(w, n_out, k_in, expert, c, k) == q(k),
        s(k / block_size) == crate::primitives::e4m3::<A>(
            scales[(expert * n_out + c) * (k_in / block_size) + k / block_size] as u32,
        ).times_spec(global),
{
    let row = expert * n_out + c;
    lemma2_to64();
    lemma_nibble_place(w, row * (k_in / 8), k);
    assert(q(k) % 16 == q(k));
    let word = w[row * (k_in / 8) + k / 8] >> (((k % 8) * 4) as u32);
    assert(word & 15 == word & 0xf);
    crate::gemm::dequant_gemv::lemma_group_in(k_in, block_size, k);
}

/// The gathered NVFP4 products: codes times `scale * 2^-14`, and activations times `2^-14`,
/// each rounded once, and their sum times `2^28`.
#[allow(clippy::too_many_arguments)]
pub proof fn law_staged_nvfp4_gather<A: Scalar, S: Storage<A>, T: Storage<A>>(
    x: Seq<T>,
    w: Seq<u32>,
    scales: Seq<u8>,
    indices: Seq<u32>,
    global: A,
    before: Seq<T>,
    out: Seq<T>,
    m_total: int,
    n_out: int,
    k_in: int,
    block_size: int,
    r: int,
    c: int,
    q: spec_fn(int) -> int,
    s: spec_fn(int) -> A,
    v: spec_fn(int) -> A,
)
    requires
        lossless::<A>(),
        routed_rows(
            before,
            out,
            m_total,
            n_out,
            named_rows(indices),
            nvfp4_outputs::<A, S, T>(
                x,
                w,
                scales,
                indices,
                global,
                n_out,
                k_in,
                block_size,
            ),
        ),
        0 <= k_in,
        k_in % 32 == 0,
        0 < block_size,
        k_in % block_size == 0,
        0 <= r < m_total,
        0 <= c < n_out,
        indices[r] != u32::MAX,
        nvfp4_row_holds::<A>(
            w,
            scales,
            global,
            k_in,
            block_size,
            indices[r] * n_out + c,
            q,
            s,
        ),
        holds_values::<A, T>(x, r * k_in, k_in, v),
    ensures
        ({
            let small: A = A::dyadic_spec(1, -14);
            out[r * n_out + c] == T::narrow_spec(
                plain_sum(
                    k_in,
                    staged_products::<A, S>(
                        |k: int|
                            e2m1::<A>(q(k) as u32).times_spec(s(k / block_size).times_spec(small)),
                        |k: int| v(k).times_spec(small),
                    ),
                ).times_spec(A::dyadic_spec(1, 28)),
            )
        }),
{
    let small: A = A::dyadic_spec(1, -14);
    let e = indices[r] as int;
    let weight = |k: int|
        e2m1::<A>(q(k) as u32).times_spec(s(k / block_size).times_spec(small));
    let value = |k: int| v(k).times_spec(small);
    let (values, weights) = (
        |k: int| rounded::<A, S>(value(k)),
        |k: int| rounded::<A, S>(weight(k)),
    );
    let xs = biased_rows::<A, S, T>(x, small, k_in);
    let ws = nvfp4_weights::<A, S>(w, scales, global, small, n_out, k_in, block_size, e);
    assert forall|k: int| 0 <= k < k_in implies xs(r, k) == #[trigger] values(k) by {
        assert(Storage::<A>::widen_spec(x[r * k_in + k]) == v(k));
    }
    assert forall|k: int| 0 <= k < k_in implies ws(c, k) == #[trigger] weights(k) by {
        lemma_nvfp4_column::<A>(w, scales, global, n_out, k_in, block_size, e, c, q, s, k);
    }
    assert(k_in / 32 * 32 == k_in);
    lemma_staged_cell(xs, ws, r, c, 32, k_in / 32, k_in, values, weights);
    assert(staged_products::<A, S>(weight, value) =~= |k: int|
        weights(k).times_spec(values(k)));
    let all = nvfp4_outputs::<A, S, T>(
        x,
        w,
        scales,
        indices,
        global,
        n_out,
        k_in,
        block_size,
    );
    assert((named_rows(indices))(r));
    assert(cell(out, n_out, r, c) == all(r, c));
}

/// The expert-aligned NVFP4 products: codes times `scale * 2^-14`, rounded once, times the
/// activations as they are, and their sum times `2^14`.
#[allow(clippy::too_many_arguments)]
pub proof fn law_staged_nvfp4_experts<A: Scalar, H: Storage<A>, X: Storage<A>, T: Storage<A>>(
    x: Seq<X>,
    w: Seq<u32>,
    scales: Seq<u8>,
    indices: Seq<u32>,
    global: A,
    before: Seq<T>,
    out: Seq<T>,
    m_total: int,
    n_out: int,
    k_in: int,
    block_size: int,
    n_experts: int,
    r: int,
    c: int,
    q: spec_fn(int) -> int,
    s: spec_fn(int) -> A,
    v: spec_fn(int) -> A,
)
    requires
        lossless::<A>(),
        expert_products::<A, H, X, T>(
            x,
            w,
            scales,
            indices,
            before,
            out,
            m_total,
            n_out,
            k_in,
            block_size,
            global,
            n_experts,
        ),
        0 <= k_in,
        k_in % 32 == 0,
        0 < block_size,
        k_in % block_size == 0,
        0 <= r < m_total,
        0 <= c < n_out,
        indices[r] < n_experts,
        nvfp4_row_holds::<A>(
            w,
            scales,
            global,
            k_in,
            block_size,
            indices[r] * n_out + c,
            q,
            s,
        ),
        holds_values::<A, X>(x, r * k_in, k_in, v),
    ensures
        out[r * n_out + c] == T::narrow_spec(
            plain_sum(
                k_in,
                |k: int|
                    rounded::<A, H>(
                        e2m1::<A>(q(k) as u32).times_spec(
                            s(k / block_size).times_spec(A::dyadic_spec(1, -14)),
                        ),
                    ).times_spec(v(k)),
            ).times_spec(A::dyadic_spec(1, 14)),
        ),
{
    let small: A = A::dyadic_spec(1, -14);
    let e = indices[r] as int;
    let weights = |k: int|
        rounded::<A, H>(
            e2m1::<A>(q(k) as u32).times_spec(s(k / block_size).times_spec(small)),
        );
    let xs = plain_rows::<A, X>(x, k_in);
    let ws = folded_weights::<A, H>(w, scales, global, n_out, k_in, block_size, e);
    assert forall|k: int| 0 <= k < k_in implies xs(r, k) == #[trigger] v(k) by {
        assert(Storage::<A>::widen_spec(x[r * k_in + k]) == v(k));
    }
    assert forall|k: int| 0 <= k < k_in implies ws(c, k) == #[trigger] weights(k) by {
        lemma_nvfp4_column::<A>(w, scales, global, n_out, k_in, block_size, e, c, q, s, k);
        let scale = crate::primitives::e4m3::<A>(
            scales[(e * n_out + c) * (k_in / block_size) + k / block_size] as u32,
        );
        lemma_doubled(q(k) as u32, scale, global);
    }
    assert(k_in / 32 * 32 == k_in);
    lemma_staged_cell(xs, ws, r, c, 32, k_in / 32, k_in, v, weights);
    assert((|k: int| weights(k).times_spec(v(k))) =~= |k: int|
        rounded::<A, H>(
            e2m1::<A>(q(k) as u32).times_spec(
                s(k / block_size).times_spec(A::dyadic_spec(1, -14)),
            ),
        ).times_spec(v(k)));
    assert(cell(out, n_out, r, c) == out[r * n_out + c]);
}

/// The product over raw bytes: weights rounded to the buffer type and then to the staging
/// type, activations to the staging type.
#[allow(clippy::too_many_arguments)]
pub proof fn law_staged_byte_product<A: Scalar, S: Storage<A>, T: Storage<A>>(
    x: Seq<T>,
    view: Seq<u8>,
    grid: Seq<u8>,
    signs: Seq<u8>,
    indices: Seq<u32>,
    before: Seq<T>,
    out: Seq<T>,
    m_total: int,
    n_out: int,
    k_in: int,
    off: int,
    stride: int,
    r: int,
    c: int,
    v: spec_fn(int) -> A,
)
    requires
        lossless::<A>(),
        routed_rows(
            before,
            out,
            m_total,
            n_out,
            named_rows(indices),
            byte_outputs::<A, S, T>(x, view, grid, signs, indices, off, stride, k_in),
        ),
        0 <= k_in,
        k_in % 16 == 0,
        0 <= r < m_total,
        0 <= c < n_out,
        indices[r] != u32::MAX,
        holds_values::<A, T>(x, r * k_in, k_in, v),
    ensures
        out[r * n_out + c] == T::narrow_spec(
            plain_sum(
                k_in,
                staged_products::<A, S>(
                    |k: int|
                        rounded::<A, T>(
                            byte_weight::<A>(
                                view,
                                grid,
                                signs,
                                off + indices[r] * stride,
                                c * k_in + k,
                            ),
                        ),
                    v,
                ),
            ),
        ),
{
    let e = indices[r] as int;
    let weight = |k: int|
        rounded::<A, T>(
            byte_weight::<A>(view, grid, signs, off + indices[r] * stride, c * k_in + k),
        );
    let (values, weights) = (
        |k: int| rounded::<A, S>(v(k)),
        |k: int| rounded::<A, S>(weight(k)),
    );
    let xs = staged_rows::<A, S, T>(x, source_rows(None), k_in);
    let ws = byte_weights::<A, S, T>(view, grid, signs, off, stride, k_in, e);
    assert forall|k: int| 0 <= k < k_in implies xs(r, k) == #[trigger] values(k) by {
        assert(Storage::<A>::widen_spec(x[r * k_in + k]) == v(k));
    }
    assert forall|k: int| 0 <= k < k_in implies ws(c, k) == #[trigger] weights(k) by {}
    assert(k_in / 16 * 16 == k_in);
    lemma_staged_cell(xs, ws, r, c, 16, k_in / 16, k_in, values, weights);
    assert(staged_products::<A, S>(weight, v) =~= |k: int| weights(k).times_spec(values(k)));
    let all = byte_outputs::<A, S, T>(x, view, grid, signs, indices, off, stride, k_in);
    assert((named_rows(indices))(r));
    assert(cell(out, n_out, r, c) == all(r, c));
}

/// The product over raw half-words: weights rounded to the buffer type and then to the staging
/// type, activations to the staging type.
#[allow(clippy::too_many_arguments)]
pub proof fn law_staged_half_product<A: Scalar, S: Storage<A>, D: Storage<A>, T: Storage<A>>(
    x: Seq<T>,
    view: Seq<u16>,
    scales: Seq<D>,
    grid: Seq<u8>,
    signs: Seq<u8>,
    indices: Seq<u32>,
    before: Seq<T>,
    out: Seq<T>,
    m_total: int,
    n_out: int,
    k_in: int,
    off: int,
    stride: int,
    r: int,
    c: int,
    v: spec_fn(int) -> A,
)
    requires
        lossless::<A>(),
        routed_rows(
            before,
            out,
            m_total,
            n_out,
            named_rows(indices),
            half_outputs::<A, S, D, T>(
                x,
                view,
                scales,
                grid,
                signs,
                indices,
                off,
                stride,
                k_in,
            ),
        ),
        0 <= k_in,
        k_in % 32 == 0,
        0 <= r < m_total,
        0 <= c < n_out,
        indices[r] != u32::MAX,
        holds_values::<A, T>(x, r * k_in, k_in, v),
    ensures
        out[r * n_out + c] == T::narrow_spec(
            plain_sum(
                k_in,
                staged_products::<A, S>(
                    |k: int|
                        rounded::<A, T>(
                            half_weight::<A, D>(
                                view,
                                scales,
                                grid,
                                signs,
                                (off + indices[r] * stride) / 2,
                                c * k_in + k,
                            ),
                        ),
                    v,
                ),
            ),
        ),
{
    let e = indices[r] as int;
    let weight = |k: int|
        rounded::<A, T>(
            half_weight::<A, D>(
                view,
                scales,
                grid,
                signs,
                (off + indices[r] * stride) / 2,
                c * k_in + k,
            ),
        );
    let (values, weights) = (
        |k: int| rounded::<A, S>(v(k)),
        |k: int| rounded::<A, S>(weight(k)),
    );
    let xs = staged_rows::<A, S, T>(x, source_rows(None), k_in);
    let ws = half_weights::<A, S, D, T>(view, scales, grid, signs, off, stride, k_in, e);
    assert forall|k: int| 0 <= k < k_in implies xs(r, k) == #[trigger] values(k) by {
        assert(Storage::<A>::widen_spec(x[r * k_in + k]) == v(k));
    }
    assert forall|k: int| 0 <= k < k_in implies ws(c, k) == #[trigger] weights(k) by {}
    assert(k_in / 32 * 32 == k_in);
    lemma_staged_cell(xs, ws, r, c, 32, k_in / 32, k_in, values, weights);
    assert(staged_products::<A, S>(weight, v) =~= |k: int| weights(k).times_spec(values(k)));
    let all = half_outputs::<A, S, D, T>(
        x,
        view,
        scales,
        grid,
        signs,
        indices,
        off,
        stride,
        k_in,
    );
    assert((named_rows(indices))(r));
    assert(cell(out, n_out, r, c) == all(r, c));
}

} // verus!
