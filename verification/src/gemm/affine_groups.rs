//! What the affine kernels compute, told from the codes, scales and biases of a row.
use crate::exact::{
    block_sums, lemma_affine_product, lemma_blocks, lemma_sum_pairs, lossless, plain_sum,
};
use crate::gemm::dequant_gemv::{
    affine_rows, affine_terms, affine_width, law_affine_row_is_plain_sum,
};
use crate::gemm::dequant_gemv_fast::{
    gathered_rows, law_split_row_is_plain_sum, split_row, split_rows,
};
use crate::gemm::packed_rows::{code_products, holds_values};
use crate::layout::{lemma_code_digits, packs};
use crate::scalar::{whole, Scalar, Storage};
use crate::tensor::{filled, lemma_flat};
use vstd::arithmetic::power2::{lemma_pow2_pos, pow2};
use vstd::prelude::*;

verus! {

/// Row `row` of an affine matrix has the codes `q`, and scales `s` and biases `b` of its
/// groups.
#[allow(clippy::too_many_arguments)]
pub open spec fn affine_row_holds<A: Scalar, T: Storage<A>>(
    bits: int,
    weight: Seq<u32>,
    scales: Seq<T>,
    biases: Seq<T>,
    in_dim: int,
    group_size: int,
    row: int,
    q: spec_fn(int) -> int,
    s: spec_fn(int) -> A,
    b: spec_fn(int) -> A,
) -> bool {
    &&& packs(weight, row * (in_dim * bits / 32), bits, in_dim, q)
    &&& forall|k: int| 0 <= k < in_dim ==> 0 <= #[trigger] q(k) < pow2(bits as nat)
    &&& holds_values::<A, T>(scales, row * (in_dim / group_size), in_dim / group_size, s)
    &&& holds_values::<A, T>(biases, row * (in_dim / group_size), in_dim / group_size, b)
}

/// `sum_g s(g) * (q . v) + b(g) * sum(v)`, each group over its own columns.
pub open spec fn group_dot<A: Scalar>(
    groups: int,
    group_size: int,
    q: spec_fn(int) -> int,
    s: spec_fn(int) -> A,
    b: spec_fn(int) -> A,
    v: spec_fn(int) -> A,
) -> A {
    plain_sum(groups, block_sums(group_size, s, code_products(q, v))).plus_spec(
        plain_sum(groups, block_sums(group_size, b, v)),
    )
}

/// In exact arithmetic the terms of an affine row add up to the sum over groups of the
/// group's scale times its dot product of codes and activations, and the group's bias times
/// its sum of activations.
#[allow(clippy::too_many_arguments)]
pub proof fn law_affine_terms_are_group_dot<A: Scalar, T: Storage<A>>(
    bits: int,
    weight: Seq<u32>,
    scales: Seq<T>,
    biases: Seq<T>,
    input: Seq<T>,
    in_dim: int,
    group_size: int,
    row: int,
    q: spec_fn(int) -> int,
    s: spec_fn(int) -> A,
    b: spec_fn(int) -> A,
    v: spec_fn(int) -> A,
)
    requires
        lossless::<A>(),
        affine_width(bits),
        0 <= in_dim,
        0 < group_size,
        in_dim % group_size == 0,
        affine_row_holds::<A, T>(bits, weight, scales, biases, in_dim, group_size, row, q, s, b),
        holds_values::<A, T>(input, 0, in_dim, v),
    ensures
        plain_sum(
            in_dim,
            affine_terms::<A, T>(bits, weight, scales, biases, input, in_dim, group_size, row),
        ) == group_dot(in_dim / group_size, group_size, q, s, b, v),
{
    let terms = affine_terms::<A, T>(
        bits,
        weight,
        scales,
        biases,
        input,
        in_dim,
        group_size,
        row,
    );
    let groups = in_dim / group_size;
    let prods = code_products(q, v);
    let left = |k: int| s(k / group_size).times_spec(prods(k));
    let right = |k: int| b(k / group_size).times_spec(v(k));
    vstd::arithmetic::div_mod::lemma_fundamental_div_mod(in_dim, group_size);
    vstd::arithmetic::div_mod::lemma_div_pos_is_pos(in_dim, group_size);
    assert(groups * group_size == group_size * groups) by (nonlinear_arith);
    assert forall|k: int| 0 <= k < in_dim implies #[trigger] terms(k) == left(k).plus_spec(
        right(k),
    ) by {
        let g = k / group_size;
        crate::gemm::dequant_gemv::lemma_group_in(in_dim, group_size, k);
        lemma_code_digits(weight, row * (in_dim * bits / 32), bits, k);
        lemma_pow2_pos(bits as nat);
        vstd::arithmetic::div_mod::lemma_small_mod(q(k) as nat, pow2(bits as nat));
        let at = row * (in_dim / group_size) + g;
        assert(Storage::<A>::widen_spec(scales[at]) == s(g));
        assert(Storage::<A>::widen_spec(biases[at]) == b(g));
        assert(Storage::<A>::widen_spec(input[0 + k]) == v(k));
        lemma_affine_product(whole(q(k)), s(g), b(g), v(k));
    }
    lemma_sum_pairs(0, in_dim, left, right, terms);
    assert forall|g: int, i: int| 0 <= g < groups && 0 <= i < group_size implies #[trigger] left(
        g * group_size + i,
    ) == s(g).times_spec(prods(g * group_size + i)) by {
        lemma_flat(groups, group_size, g, i);
        vstd::arithmetic::div_mod::lemma_fundamental_div_mod_converse(
            g * group_size + i,
            group_size,
            g,
            i,
        );
    }
    lemma_blocks(groups, group_size, left, s, prods);
    assert forall|g: int, i: int| 0 <= g < groups && 0 <= i < group_size implies #[trigger] right(
        g * group_size + i,
    ) == b(g).times_spec(v(g * group_size + i)) by {
        lemma_flat(groups, group_size, g, i);
        vstd::arithmetic::div_mod::lemma_fundamental_div_mod_converse(
            g * group_size + i,
            group_size,
            g,
            i,
        );
    }
    lemma_blocks(groups, group_size, right, b, v);
}

/// In exact arithmetic an output of the dequantising GEMV is its row's group dot product,
/// whatever the width of the codes and the number of lanes.
#[allow(clippy::too_many_arguments)]
pub proof fn law_affine_gemv<A: Scalar, T: Storage<A>>(
    bits: int,
    weight: Seq<u32>,
    scales: Seq<T>,
    biases: Seq<T>,
    input: Seq<T>,
    before: Seq<T>,
    out: Seq<T>,
    in_dim: int,
    group_size: int,
    out_dim: int,
    lanes: int,
    row: int,
    q: spec_fn(int) -> int,
    s: spec_fn(int) -> A,
    b: spec_fn(int) -> A,
    v: spec_fn(int) -> A,
)
    requires
        lossless::<A>(),
        filled(
            before,
            out,
            out_dim,
            affine_rows::<A, T>(
                bits,
                weight,
                scales,
                biases,
                input,
                in_dim,
                group_size,
                lanes,
            ),
        ),
        affine_width(bits),
        0 <= in_dim,
        0 < group_size,
        in_dim % group_size == 0,
        32int % bits == 0 ==> in_dim % (32int / bits) == 0,
        lanes > 0,
        0 <= row < out_dim,
        affine_row_holds::<A, T>(bits, weight, scales, biases, in_dim, group_size, row, q, s, b),
        holds_values::<A, T>(input, 0, in_dim, v),
    ensures
        out[row] == T::narrow_spec(group_dot(in_dim / group_size, group_size, q, s, b, v)),
{
    law_affine_row_is_plain_sum::<A, T>(
        bits,
        weight,
        scales,
        biases,
        input,
        in_dim,
        group_size,
        row,
        lanes,
    );
    law_affine_terms_are_group_dot::<A, T>(
        bits,
        weight,
        scales,
        biases,
        input,
        in_dim,
        group_size,
        row,
        q,
        s,
        b,
        v,
    );
    assert(out[row] == (affine_rows::<A, T>(
        bits,
        weight,
        scales,
        biases,
        input,
        in_dim,
        group_size,
        lanes,
    ))(row));
}

/// In exact arithmetic a row of the fast kernels is its group dot product.
#[allow(clippy::too_many_arguments)]
proof fn lemma_split_row<A: Scalar, T: Storage<A>>(
    bits: int,
    weight: Seq<u32>,
    scales: Seq<T>,
    biases: Seq<T>,
    input: Seq<T>,
    in_dim: int,
    group_size: int,
    row: int,
    q: spec_fn(int) -> int,
    s: spec_fn(int) -> A,
    b: spec_fn(int) -> A,
    v: spec_fn(int) -> A,
)
    requires
        lossless::<A>(),
        bits == 2 || bits == 4,
        0 <= in_dim,
        in_dim % 16 == 0,
        0 < group_size,
        group_size % 16 == 0,
        in_dim % group_size == 0,
        affine_row_holds::<A, T>(bits, weight, scales, biases, in_dim, group_size, row, q, s, b),
        holds_values::<A, T>(input, 0, in_dim, v),
    ensures
        split_row::<A, T>(bits, weight, scales, biases, input, in_dim, group_size, row)
            == group_dot(in_dim / group_size, group_size, q, s, b, v),
{
    law_split_row_is_plain_sum::<A, T>(
        bits,
        weight,
        scales,
        biases,
        input,
        in_dim,
        group_size,
        row,
    );
    law_affine_terms_are_group_dot::<A, T>(
        bits,
        weight,
        scales,
        biases,
        input,
        in_dim,
        group_size,
        row,
        q,
        s,
        b,
        v,
    );
}

/// In exact arithmetic an output of the fast GEMVs is its row's group dot product.
#[allow(clippy::too_many_arguments)]
pub proof fn law_fast_gemv<A: Scalar, T: Storage<A>>(
    bits: int,
    weight: Seq<u32>,
    scales: Seq<T>,
    biases: Seq<T>,
    input: Seq<T>,
    before: Seq<T>,
    out: Seq<T>,
    in_dim: int,
    group_size: int,
    out_dim: int,
    row: int,
    q: spec_fn(int) -> int,
    s: spec_fn(int) -> A,
    b: spec_fn(int) -> A,
    v: spec_fn(int) -> A,
)
    requires
        lossless::<A>(),
        filled(
            before,
            out,
            out_dim,
            split_rows::<A, T>(bits, weight, scales, biases, input, in_dim, group_size),
        ),
        bits == 2 || bits == 4,
        0 <= in_dim,
        in_dim % 16 == 0,
        0 < group_size,
        group_size % 16 == 0,
        in_dim % group_size == 0,
        0 <= row < out_dim,
        affine_row_holds::<A, T>(bits, weight, scales, biases, in_dim, group_size, row, q, s, b),
        holds_values::<A, T>(input, 0, in_dim, v),
    ensures
        out[row] == T::narrow_spec(group_dot(in_dim / group_size, group_size, q, s, b, v)),
{
    lemma_split_row::<A, T>(
        bits,
        weight,
        scales,
        biases,
        input,
        in_dim,
        group_size,
        row,
        q,
        s,
        b,
        v,
    );
    assert(out[row] == (split_rows::<A, T>(
        bits,
        weight,
        scales,
        biases,
        input,
        in_dim,
        group_size,
    ))(row));
}

/// In exact arithmetic output `i` of the gathered GEMV is the group dot product of the row
/// that its index names.
#[allow(clippy::too_many_arguments)]
pub proof fn law_gathered_gemv<A: Scalar, T: Storage<A>>(
    weight: Seq<u32>,
    scales: Seq<T>,
    biases: Seq<T>,
    row_indices: Seq<u32>,
    input: Seq<T>,
    before: Seq<T>,
    out: Seq<T>,
    in_dim: int,
    group_size: int,
    out_dim: int,
    i: int,
    q: spec_fn(int) -> int,
    s: spec_fn(int) -> A,
    b: spec_fn(int) -> A,
    v: spec_fn(int) -> A,
)
    requires
        lossless::<A>(),
        filled(
            before,
            out,
            out_dim,
            gathered_rows::<A, T>(
                weight,
                scales,
                biases,
                row_indices,
                input,
                in_dim,
                group_size,
            ),
        ),
        0 <= in_dim,
        in_dim % 16 == 0,
        0 < group_size,
        group_size % 16 == 0,
        in_dim % group_size == 0,
        0 <= i < out_dim,
        affine_row_holds::<A, T>(
            4,
            weight,
            scales,
            biases,
            in_dim,
            group_size,
            row_indices[i] as int,
            q,
            s,
            b,
        ),
        holds_values::<A, T>(input, 0, in_dim, v),
    ensures
        out[i] == T::narrow_spec(group_dot(in_dim / group_size, group_size, q, s, b, v)),
{
    lemma_split_row::<A, T>(
        4,
        weight,
        scales,
        biases,
        input,
        in_dim,
        group_size,
        row_indices[i] as int,
        q,
        s,
        b,
        v,
    );
    assert(out[i] == (gathered_rows::<A, T>(
        weight,
        scales,
        biases,
        row_indices,
        input,
        in_dim,
        group_size,
    ))(i));
}

} // verus!
