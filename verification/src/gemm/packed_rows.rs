//! What the Q8 and Q4 kernels compute, told from the codes and scales of a row.
use crate::exact::{
    block_sums, keeps, lemma_blocks, lemma_single_term, lemma_zero_terms, lossless, plain_sum,
    times_assoc, times_zero,
};
use crate::gemm::gemm_q4_bm8::{law_gemm_is_gemv as law_q4_gemm_is_gemv, q4_product};
use crate::gemm::gemm_q8::{law_gemm_is_gemv as law_q8_gemm_is_gemv, q8_product};
use crate::gemm::gemv_quantized::{
    law_q4_dot_is_plain_sum, law_q8_dot_is_plain_sum, q4_batch, q4_dot, q4_outputs, q8_batch,
    q8_dot, q8_outputs,
};
use crate::gemm::q4::q4_single_terms;
use crate::gemm::q8::q8_terms;
use crate::layout::{lemma_byte_place, lemma_complement, lemma_nibble_place, packs};
use crate::rows::{stored, Finish};
use crate::scalar::{whole, Scalar, Storage};
use crate::tensor::{filled, filled2};
use vstd::arithmetic::power2::lemma2_to64;
use vstd::prelude::*;

verus! {

/// The products of codes with activations.
pub open spec fn code_products<A: Scalar>(
    q: spec_fn(int) -> int,
    v: spec_fn(int) -> A,
) -> spec_fn(int) -> A {
    |k: int| whole::<A>(q(k)).times_spec(v(k))
}

/// `sum_b s(b) * sum_i q(32 b + i) * v(32 b + i)` over `n` blocks of 32.
pub open spec fn block_dot<A: Scalar>(
    n: int,
    q: spec_fn(int) -> int,
    s: spec_fn(int) -> A,
    v: spec_fn(int) -> A,
) -> A {
    plain_sum(n, block_sums(32, s, code_products(q, v)))
}

/// A buffer holds the values `v` from element `at` on.
pub open spec fn holds_values<A: Scalar, T: Storage<A>>(
    buf: Seq<T>,
    at: int,
    n: int,
    v: spec_fn(int) -> A,
) -> bool {
    forall|i: int| 0 <= i < n ==> buf[at + i].widen_spec() == #[trigger] v(i)
}

/// Row `row` of a Q8 matrix of whole blocks has the codes `q` and the block scales `s`.
pub open spec fn q8_row_holds<A: Scalar, D: Storage<A>>(
    qs: Seq<u32>,
    d: Seq<D>,
    k_in: int,
    row: int,
    q: spec_fn(int) -> int,
    s: spec_fn(int) -> A,
) -> bool {
    &&& packs(qs, row * (k_in / 32 * 8), 8, k_in / 32 * 32, q)
    &&& forall|k: int| 0 <= k < k_in / 32 * 32 ==> -128 <= #[trigger] q(k) < 128
    &&& holds_values::<A, D>(d, row * (k_in / 32), k_in / 32, s)
}

/// Row `row` of a Q4 matrix of whole blocks has the codes `q` and the block scales `s`.
pub open spec fn q4_row_holds<A: Scalar, D: Storage<A>>(
    qs: Seq<u32>,
    d: Seq<D>,
    k_in: int,
    row: int,
    q: spec_fn(int) -> int,
    s: spec_fn(int) -> A,
) -> bool {
    &&& packs(qs, row * (k_in / 32 * 4), 4, k_in / 32 * 32, q)
    &&& forall|k: int| 0 <= k < k_in / 32 * 32 ==> -8 <= #[trigger] q(k) < 8
    &&& holds_values::<A, D>(d, row * (k_in / 32), k_in / 32, s)
}

/// In exact arithmetic a Q8 dot product is the sum over blocks of the block's scale times the
/// block's dot product of codes and activations.
#[allow(clippy::too_many_arguments)]
pub proof fn law_q8_dot_is_block_dot<A: Scalar, D: Storage<A>, T: Storage<A>>(
    qs: Seq<u32>,
    d: Seq<D>,
    x: Seq<T>,
    off: int,
    k_in: int,
    row: int,
    stride: int,
    q: spec_fn(int) -> int,
    s: spec_fn(int) -> A,
    v: spec_fn(int) -> A,
)
    requires
        lossless::<A>(),
        0 <= k_in,
        stride == 4 || stride == 32,
        q8_row_holds::<A, D>(qs, d, k_in, row, q, s),
        holds_values::<A, T>(x, off, k_in / 32 * 32, v),
    ensures
        q8_dot::<A, D, T>(qs, d, x, off, k_in, row, stride) == block_dot(k_in / 32, q, s, v),
{
    let terms = q8_terms::<A, D, T>(qs, d, x, off, k_in, row);
    let prods = code_products(q, v);
    law_q8_dot_is_plain_sum::<A, D, T>(qs, d, x, off, k_in, row, stride);
    lemma2_to64();
    assert forall|b: int, i: int| 0 <= b < k_in / 32 && 0 <= i < 32 implies #[trigger] terms(
        b * 32 + i,
    ) == s(b).times_spec(prods(b * 32 + i)) by {
        let k = b * 32 + i;
        assert(0 <= k < k_in / 32 * 32 && k / 32 == b);
        lemma_byte_place(qs, row * (k_in / 32 * 8), k);
        lemma_complement(q(k), q(k) % 256, 128);
        assert(Storage::<A>::widen_spec(d[row * (k_in / 32) + b]) == s(b));
        assert(Storage::<A>::widen_spec(x[off + k]) == v(k));
        times_assoc(s(b), whole(q(k)), v(k));
    }
    lemma_blocks(k_in / 32, 32, terms, s, prods);
}

/// In exact arithmetic a Q4 dot product is the sum over blocks of the block's scale times the
/// block's dot product of codes and activations.
#[allow(clippy::too_many_arguments)]
pub proof fn law_q4_dot_is_block_dot<A: Scalar, D: Storage<A>, T: Storage<A>>(
    qs: Seq<u32>,
    d: Seq<D>,
    x: Seq<T>,
    off: int,
    k_in: int,
    row: int,
    per: int,
    q: spec_fn(int) -> int,
    s: spec_fn(int) -> A,
    v: spec_fn(int) -> A,
)
    requires
        lossless::<A>(),
        0 <= k_in,
        per == 8 || per == 32,
        q4_row_holds::<A, D>(qs, d, k_in, row, q, s),
        holds_values::<A, T>(x, off, k_in / 32 * 32, v),
    ensures
        q4_dot::<A, D, T>(qs, d, x, off, k_in, row, per) == block_dot(k_in / 32, q, s, v),
{
    let terms = q4_single_terms::<A, D, T>(qs, d, x, off, k_in, row);
    let prods = code_products(q, v);
    law_q4_dot_is_plain_sum::<A, D, T>(qs, d, x, off, k_in, row, per);
    lemma2_to64();
    assert forall|b: int, i: int| 0 <= b < k_in / 32 && 0 <= i < 32 implies #[trigger] terms(
        b * 32 + i,
    ) == s(b).times_spec(prods(b * 32 + i)) by {
        let k = b * 32 + i;
        assert(0 <= k < k_in / 32 * 32 && k / 32 == b);
        lemma_nibble_place(qs, row * (k_in / 32 * 4), k);
        lemma_complement(q(k), q(k) % 16, 8);
        assert(Storage::<A>::widen_spec(d[row * (k_in / 32) + b]) == s(b));
        assert(Storage::<A>::widen_spec(x[off + k]) == v(k));
        times_assoc(s(b), whole(q(k)), v(k));
    }
    lemma_blocks(k_in / 32, 32, terms, s, prods);
}

/// In exact arithmetic every scale is used: where codes and activations meet in one block
/// only, the dot product is that block's scale times the block's dot product.
pub proof fn law_every_block_has_its_scale<A: Scalar>(
    n: int,
    q: spec_fn(int) -> int,
    s: spec_fn(int) -> A,
    v: spec_fn(int) -> A,
    b: int,
)
    requires
        lossless::<A>(),
        0 <= b < n,
        forall|k: int| 0 <= k < n * 32 && k / 32 != b ==> #[trigger] v(k) == whole::<A>(0),
    ensures
        block_dot(n, q, s, v) == s(b).times_spec(
            plain_sum(32, |i: int| (code_products(q, v))(b * 32 + i)),
        ),
{
    let sums = block_sums(32, s, code_products(q, v));
    assert forall|c: int| 0 <= c < n && c != b implies #[trigger] sums(c) == whole::<A>(0) by {
        let own = |i: int| (code_products(q, v))(c * 32 + i);
        assert forall|i: int| 0 <= i < 32 implies #[trigger] own(i) == whole::<A>(0) by {
            assert((c * 32 + i) / 32 == c);
            assert(v(c * 32 + i) == whole::<A>(0));
            times_zero::<A>(whole(q(c * 32 + i)));
        }
        lemma_zero_terms(32, own);
        times_zero(s(c));
    }
    lemma_single_term(n, sums, b);
}

/// In exact arithmetic element `row` of a Q8 GEMV is finished from the dot product of its row
/// with the activations of its group.
#[allow(clippy::too_many_arguments)]
pub proof fn law_q8_gemv<A: Scalar, D: Storage<A>, T: Storage<A>>(
    how: Finish<A>,
    before: Seq<T>,
    out: Seq<T>,
    qs: Seq<u32>,
    d: Seq<D>,
    x: Seq<T>,
    k_in: int,
    m_out: int,
    rows_per_group: int,
    stride: int,
    row: int,
    q: spec_fn(int) -> int,
    s: spec_fn(int) -> A,
    v: spec_fn(int) -> A,
)
    requires
        lossless::<A>(),
        filled(
            before,
            out,
            m_out,
            q8_outputs::<A, D, T>(how, before, qs, d, x, k_in, rows_per_group, stride),
        ),
        0 <= k_in,
        stride == 4 || stride == 32,
        0 <= row < m_out,
        q8_row_holds::<A, D>(qs, d, k_in, row, q, s),
        holds_values::<A, T>(x, row / rows_per_group * k_in, k_in / 32 * 32, v),
    ensures
        out[row] == stored::<A, T>(how, before[row], block_dot(k_in / 32, q, s, v)),
{
    law_q8_dot_is_block_dot::<A, D, T>(
        qs,
        d,
        x,
        row / rows_per_group * k_in,
        k_in,
        row,
        stride,
        q,
        s,
        v,
    );
    assert(out[row] == (q8_outputs::<A, D, T>(
        how,
        before,
        qs,
        d,
        x,
        k_in,
        rows_per_group,
        stride,
    ))(row));
}

/// In exact arithmetic element `row` of a Q4 GEMV is finished from the dot product of its row
/// with the activations of its group.
#[allow(clippy::too_many_arguments)]
pub proof fn law_q4_gemv<A: Scalar, D: Storage<A>, T: Storage<A>>(
    how: Finish<A>,
    before: Seq<T>,
    out: Seq<T>,
    qs: Seq<u32>,
    d: Seq<D>,
    x: Seq<T>,
    k_in: int,
    m_out: int,
    rows_per_group: int,
    per: int,
    row: int,
    q: spec_fn(int) -> int,
    s: spec_fn(int) -> A,
    v: spec_fn(int) -> A,
)
    requires
        lossless::<A>(),
        filled(
            before,
            out,
            m_out,
            q4_outputs::<A, D, T>(how, before, qs, d, x, k_in, rows_per_group, per),
        ),
        0 <= k_in,
        per == 8 || per == 32,
        0 <= row < m_out,
        q4_row_holds::<A, D>(qs, d, k_in, row, q, s),
        holds_values::<A, T>(x, row / rows_per_group * k_in, k_in / 32 * 32, v),
    ensures
        out[row] == stored::<A, T>(how, before[row], block_dot(k_in / 32, q, s, v)),
{
    law_q4_dot_is_block_dot::<A, D, T>(
        qs,
        d,
        x,
        row / rows_per_group * k_in,
        k_in,
        row,
        per,
        q,
        s,
        v,
    );
    assert(out[row] == (q4_outputs::<A, D, T>(
        how,
        before,
        qs,
        d,
        x,
        k_in,
        rows_per_group,
        per,
    ))(row));
}

/// In exact arithmetic a batched Q8 GEMV takes row `row` against the activations of the row's
/// group and the token: a token's groups lie side by side.
#[allow(clippy::too_many_arguments)]
pub proof fn law_q8_batch<A: Scalar, D: Storage<A>, T: Storage<A>>(
    before: Seq<T>,
    out: Seq<T>,
    qs: Seq<u32>,
    d: Seq<D>,
    x: Seq<T>,
    k_in: int,
    n_tokens: int,
    m_out: int,
    rows_per_group: int,
    token: int,
    row: int,
    q: spec_fn(int) -> int,
    s: spec_fn(int) -> A,
    v: spec_fn(int) -> A,
)
    requires
        lossless::<A>(),
        filled2(
            before,
            out,
            n_tokens,
            m_out,
            q8_batch::<A, D, T>(qs, d, x, k_in, m_out, rows_per_group),
        ),
        0 <= k_in,
        0 <= token < n_tokens,
        0 <= row < m_out,
        q8_row_holds::<A, D>(qs, d, k_in, row, q, s),
        holds_values::<A, T>(
            x,
            token * (m_out / rows_per_group * k_in) + row / rows_per_group * k_in,
            k_in / 32 * 32,
            v,
        ),
    ensures
        out[token * m_out + row] == T::narrow_spec(block_dot(k_in / 32, q, s, v)),
{
    law_q8_dot_is_block_dot::<A, D, T>(
        qs,
        d,
        x,
        token * (m_out / rows_per_group * k_in) + row / rows_per_group * k_in,
        k_in,
        row,
        32,
        q,
        s,
        v,
    );
    assert(crate::tensor::cell(out, m_out, token, row) == (q8_batch::<A, D, T>(
        qs,
        d,
        x,
        k_in,
        m_out,
        rows_per_group,
    ))(token, row));
}

/// In exact arithmetic a batched Q4 GEMV takes row `row` against the activations of the row's
/// group and the candidate: a candidate's groups lie side by side.
#[allow(clippy::too_many_arguments)]
pub proof fn law_q4_batch<A: Scalar, D: Storage<A>, T: Storage<A>>(
    before: Seq<T>,
    out: Seq<T>,
    qs: Seq<u32>,
    d: Seq<D>,
    x: Seq<T>,
    k_in: int,
    candidates: int,
    m_out: int,
    rows_per_group: int,
    t: int,
    row: int,
    q: spec_fn(int) -> int,
    s: spec_fn(int) -> A,
    v: spec_fn(int) -> A,
)
    requires
        lossless::<A>(),
        filled2(
            before,
            out,
            candidates,
            m_out,
            q4_batch::<A, D, T>(qs, d, x, k_in, m_out, rows_per_group),
        ),
        0 <= k_in,
        0 <= t < candidates,
        0 <= row < m_out,
        q4_row_holds::<A, D>(qs, d, k_in, row, q, s),
        holds_values::<A, T>(
            x,
            t * (m_out / rows_per_group * k_in) + row / rows_per_group * k_in,
            k_in / 32 * 32,
            v,
        ),
    ensures
        out[t * m_out + row] == T::narrow_spec(block_dot(k_in / 32, q, s, v)),
{
    law_q4_dot_is_block_dot::<A, D, T>(
        qs,
        d,
        x,
        t * (m_out / rows_per_group * k_in) + row / rows_per_group * k_in,
        k_in,
        row,
        8,
        q,
        s,
        v,
    );
    assert(crate::tensor::cell(out, m_out, t, row) == (q4_batch::<A, D, T>(
        qs,
        d,
        x,
        k_in,
        m_out,
        rows_per_group,
    ))(t, row));
}

/// In exact arithmetic an output of the tiled Q8 product is the dot product of its column's
/// weights with the row's activations of the column's group.
#[allow(clippy::too_many_arguments)]
pub proof fn law_q8_gemm<A: Scalar, T: Storage<A>>(
    before: Seq<T>,
    out: Seq<T>,
    qs: Seq<u32>,
    d: Seq<A>,
    input: Seq<T>,
    in_dim: int,
    n_rows: int,
    out_dim: int,
    n_groups: int,
    rows_per_group: int,
    r: int,
    o: int,
    q: spec_fn(int) -> int,
    s: spec_fn(int) -> A,
    v: spec_fn(int) -> A,
)
    requires
        lossless::<A>(),
        filled2(
            before,
            out,
            n_rows,
            out_dim,
            q8_product::<A, T>(qs, d, input, in_dim, n_groups, rows_per_group),
        ),
        0 <= in_dim,
        in_dim % 32 == 0,
        0 <= r < n_rows,
        0 <= o < out_dim,
        q8_row_holds::<A, A>(qs, d, in_dim, o, q, s),
        holds_values::<A, T>(
            input,
            r * (n_groups * in_dim) + o / rows_per_group * in_dim,
            in_dim,
            v,
        ),
    ensures
        out[r * out_dim + o] == T::narrow_spec(block_dot(in_dim / 32, q, s, v)),
{
    let off = r * (n_groups * in_dim) + o / rows_per_group * in_dim;
    law_q8_gemm_is_gemv::<A, T>(qs, d, input, in_dim, n_groups, rows_per_group, r, o, 32);
    law_q8_dot_is_block_dot::<A, A, T>(qs, d, input, off, in_dim, o, 32, q, s, v);
    assert(crate::tensor::cell(out, out_dim, r, o) == (q8_product::<A, T>(
        qs,
        d,
        input,
        in_dim,
        n_groups,
        rows_per_group,
    ))(r, o));
}

/// In exact arithmetic an output of the tiled Q4 product is the dot product of its column's
/// weights with the row's activations.
#[allow(clippy::too_many_arguments)]
pub proof fn law_q4_gemm<A: Scalar, S: Storage<A>, D: Storage<A>, T: Storage<A>>(
    before: Seq<T>,
    out: Seq<T>,
    x: Seq<T>,
    qs: Seq<u32>,
    scales: Seq<D>,
    n_rows: int,
    out_dim: int,
    k_in: int,
    r: int,
    c: int,
    q: spec_fn(int) -> int,
    s: spec_fn(int) -> A,
    v: spec_fn(int) -> A,
)
    requires
        lossless::<A>(),
        keeps::<A, S>(),
        filled2(before, out, n_rows, out_dim, q4_product::<A, S, D, T>(x, qs, scales, k_in)),
        0 <= k_in,
        k_in % 32 == 0,
        0 <= r < n_rows,
        0 <= c < out_dim,
        q4_row_holds::<A, D>(qs, scales, k_in, c, q, s),
        holds_values::<A, T>(x, r * k_in, k_in, v),
    ensures
        out[r * out_dim + c] == T::narrow_spec(block_dot(k_in / 32, q, s, v)),
{
    law_q4_gemm_is_gemv::<A, S, D, T>(x, qs, scales, k_in, r, c);
    law_q4_dot_is_block_dot::<A, D, T>(qs, scales, x, r * k_in, k_in, c, 8, q, s, v);
    assert(crate::tensor::cell(out, out_dim, r, c) == (q4_product::<A, S, D, T>(
        x,
        qs,
        scales,
        k_in,
    ))(r, c));
}

} // verus!
