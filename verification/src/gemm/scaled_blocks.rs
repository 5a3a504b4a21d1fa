//! What the block-scaled kernels compute, told from the codes and scales of a row.
use crate::exact::{
    block_sums, lemma_blocks, lemma_sum_factor, lossless, plain_sum, times_assoc, times_comm,
};
use crate::gemm::batched_qkv_block_scaled_qmm::projected;
use crate::gemm::block_scaled_matmul::{
    law_scaled_row_is_plain_sum, scaled_row, scaled_rows, scaled_terms, Codes, Scales,
};
use crate::gemm::packed_rows::holds_values;
use crate::layout::{lemma_code_digits, lemma_nibble_place, packs};
use crate::primitives::{
    code_at, e2m1, e4m3, e5m2, e8m0, law_e8m0_doubles, law_sign_extension,
};
use crate::scalar::{whole, Scalar, Storage};
use crate::tensor::{cell, filled, filled2};
use vstd::arithmetic::power2::{lemma2_to64, lemma_pow2_pos, pow2};
use vstd::prelude::*;

verus! {

/// Row `row` of a matrix has the codes `c`: raw ones of the floating formats, numbers of the
/// integer formats.
pub open spec fn row_has_codes<'a>(
    codes: Codes<'a>,
    in_dim: int,
    row: int,
    c: spec_fn(int) -> int,
) -> bool {
    match codes {
        Codes::E2m1(words) => {
            &&& packs(words@, row * (in_dim / 8), 4, in_dim, c)
            &&& forall|k: int| 0 <= k < in_dim ==> 0 <= #[trigger] c(k) < 16
        },
        Codes::Int(words, bits) => {
            &&& packs(words@, row * (in_dim * bits / 32), bits as int, in_dim, c)
            &&& forall|k: int|
                0 <= k < in_dim ==> -(pow2((bits - 1) as nat) as int) <= #[trigger] c(k) < pow2(
                    (bits - 1) as nat,
                )
        },
        Codes::E4m3(bytes) => forall|k: int|
            0 <= k < in_dim ==> bytes@[row * in_dim + k] as int == #[trigger] c(k),
        Codes::E5m2(bytes) => forall|k: int|
            0 <= k < in_dim ==> bytes@[row * in_dim + k] as int == #[trigger] c(k),
        Codes::Int8(bytes) => {
            &&& forall|k: int|
                0 <= k < in_dim ==> bytes@[row * in_dim + k] as int == #[trigger] c(k) % 256
            &&& forall|k: int| 0 <= k < in_dim ==> -128 <= #[trigger] c(k) < 128
        },
    }
}

/// The value of a code.
pub open spec fn code_value<'a, A: Scalar>(codes: Codes<'a>, c: int) -> A {
    match codes {
        Codes::E2m1(_) => e2m1(c as u32),
        Codes::E4m3(_) => e4m3(c as u32),
        Codes::E5m2(_) => e5m2(c as u32),
        _ => whole(c),
    }
}

/// The values of codes times the activations.
pub open spec fn value_products<'a, A: Scalar>(
    codes: Codes<'a>,
    c: spec_fn(int) -> int,
    v: spec_fn(int) -> A,
) -> spec_fn(int) -> A {
    |k: int| code_value::<A>(codes, c(k)).times_spec(v(k))
}

/// Row `row` of a matrix has the block scales `s`.
pub open spec fn row_has_scales<'a, A: Scalar, S: Storage<A>>(
    scales: Scales<'a, A, S>,
    blocks: int,
    row: int,
    s: spec_fn(int) -> A,
) -> bool {
    forall|b: int|
        0 <= b < blocks ==> #[trigger] s(b) == (match scales {
            Scales::Pow2(bytes) => e8m0::<A>(bytes@[row * blocks + b] as u32),
            Scales::Micro(bytes, global) => e4m3::<A>(
                bytes@[row * blocks + b] as u32,
            ).times_spec(global),
            Scales::Direct(values) => values@[row * blocks + b].widen_spec(),
        })
}

/// The value of a code is what the buffer is read as.
proof fn lemma_code_value<'a, A: Scalar>(
    codes: Codes<'a>,
    in_dim: int,
    row: int,
    c: spec_fn(int) -> int,
    k: int,
)
    requires
        row_has_codes(codes, in_dim, row, c),
        0 <= k < in_dim,
        codes matches Codes::Int(_, bits) ==> 2 <= bits <= 6,
    ensures
        codes.value::<A>(in_dim, row, k) == code_value::<A>(codes, c(k)),
{
    lemma2_to64();
    match codes {
        Codes::E2m1(words) => {
            lemma_nibble_place(words@, row * (in_dim / 8), k);
            assert(c(k) % 16 == c(k));
            let w = words@[row * (in_dim / 8) + k / 8] >> (((k % 8) * 4) as u32);
            assert(w & 15 == w & 0xf);
        },
        Codes::Int(words, bits) => {
            let b = bits as int;
            let base = row * (in_dim * b / 32);
            lemma_code_digits(words@, base, b, k);
            lemma_pow2_pos(b as nat);
            let code = code_at(words@, base, b, k);
            vstd::arithmetic::div_mod::lemma_small_mod(code as nat, pow2(b as nat));
            assert(code as int == c(k) % (pow2(b as nat) as int));
            law_sign_extension(code, b, c(k));
        },
        Codes::E4m3(bytes) => {
            assert(bytes@[row * in_dim + k] as int == c(k));
        },
        Codes::E5m2(bytes) => {
            assert(bytes@[row * in_dim + k] as int == c(k));
        },
        Codes::Int8(bytes) => {
            let byte = bytes@[row * in_dim + k];
            assert(byte as int == c(k) % 256);
            assert(byte as u32 as int % 256 == c(k) % 256);
            law_sign_extension(byte as u32, 8, c(k));
        },
    }
}

/// In exact arithmetic a block-scaled row is the sum over blocks of the block's scale times
/// the block's dot product of code values and activations.
#[allow(clippy::too_many_arguments)]
pub proof fn law_scaled_row_is_block_dot<'a, A: Scalar, S: Storage<A>, T: Storage<A>>(
    codes: Codes<'a>,
    scales: Scales<'a, A, S>,
    x: Seq<T>,
    off: int,
    in_dim: int,
    block_size: int,
    row: int,
    lanes: int,
    c: spec_fn(int) -> int,
    s: spec_fn(int) -> A,
    v: spec_fn(int) -> A,
)
    requires
        lossless::<A>(),
        0 <= in_dim,
        0 < block_size,
        in_dim % block_size == 0,
        codes is E2m1 ==> in_dim % 8 == 0,
        codes matches Codes::Int(_, bits) ==> 2 <= bits <= 6,
        lanes > 0,
        row_has_codes(codes, in_dim, row, c),
        row_has_scales(scales, in_dim / block_size, row, s),
        holds_values::<A, T>(x, off, in_dim, v),
    ensures
        scaled_row::<A, S, T>(codes, scales, x, off, in_dim, block_size, row, lanes) == plain_sum(
            in_dim / block_size,
            block_sums(block_size, s, value_products(codes, c, v)),
        ),
{
    let terms = scaled_terms::<A, S, T>(codes, scales, x, off, in_dim, block_size, row);
    let prods = value_products(codes, c, v);
    let blocks = in_dim / block_size;
    if !(codes is E2m1) {
        assert(in_dim % 1 == 0);
    }
    law_scaled_row_is_plain_sum::<A, S, T>(
        codes,
        scales,
        x,
        off,
        in_dim,
        block_size,
        row,
        lanes,
    );
    vstd::arithmetic::div_mod::lemma_fundamental_div_mod(in_dim, block_size);
    vstd::arithmetic::div_mod::lemma_div_pos_is_pos(in_dim, block_size);
    assert(blocks * block_size == block_size * blocks) by (nonlinear_arith);
    assert forall|b: int, i: int| 0 <= b < blocks && 0 <= i < block_size implies #[trigger] terms(
        b * block_size + i,
    ) == s(b).times_spec(prods(b * block_size + i)) by {
        let k = b * block_size + i;
        crate::tensor::lemma_flat(blocks, block_size, b, i);
        vstd::arithmetic::div_mod::lemma_fundamental_div_mod_converse(k, block_size, b, i);
        assert(k / block_size == b);
        lemma_code_value::<A>(codes, in_dim, row, c, k);
        let w = code_value::<A>(codes, c(k));
        assert(scales.value(blocks, row, b) == s(b));
        assert(Storage::<A>::widen_spec(x[off + k]) == v(k));
        times_comm(w, s(b));
        times_assoc(s(b), w, v(k));
    }
    lemma_blocks(blocks, block_size, terms, s, prods);
}

/// In exact arithmetic an output of the block-scaled GEMV is its row's dot product.
#[allow(clippy::too_many_arguments)]
pub proof fn law_scaled_gemv<'a, A: Scalar, S: Storage<A>, T: Storage<A>>(
    codes: Codes<'a>,
    scales: Scales<'a, A, S>,
    x: Seq<T>,
    before: Seq<T>,
    out: Seq<T>,
    in_dim: int,
    block_size: int,
    out_dim: int,
    row: int,
    lanes: int,
    c: spec_fn(int) -> int,
    s: spec_fn(int) -> A,
    v: spec_fn(int) -> A,
)
    requires
        lossless::<A>(),
        filled(
            before,
            out,
            out_dim,
            scaled_rows::<A, S, T>(codes, scales, x, in_dim, block_size, lanes),
        ),
        0 <= in_dim,
        0 < block_size,
        in_dim % block_size == 0,
        codes is E2m1 ==> in_dim % 8 == 0,
        codes matches Codes::Int(_, bits) ==> 2 <= bits <= 6,
        lanes > 0,
        0 <= row < out_dim,
        row_has_codes(codes, in_dim, row, c),
        row_has_scales(scales, in_dim / block_size, row, s),
        holds_values::<A, T>(x, 0, in_dim, v),
    ensures
        out[row] == T::narrow_spec(
            plain_sum(
                in_dim / block_size,
                block_sums(block_size, s, value_products(codes, c, v)),
            ),
        ),
{
    law_scaled_row_is_block_dot::<A, S, T>(
        codes,
        scales,
        x,
        0,
        in_dim,
        block_size,
        row,
        lanes,
        c,
        s,
        v,
    );
    assert(out[row] == (scaled_rows::<A, S, T>(codes, scales, x, in_dim, block_size, lanes))(row));
}

/// In exact arithmetic an output of a batched projection is the dot product of its row with
/// its token's activations.
#[allow(clippy::too_many_arguments)]
pub proof fn law_projection<'a, A: Scalar, S: Storage<A>, T: Storage<A>>(
    codes: Codes<'a>,
    scales: Scales<'a, A, S>,
    x: Seq<T>,
    before: Seq<T>,
    out: Seq<T>,
    in_dim: int,
    block_size: int,
    tokens: int,
    out_dim: int,
    m: int,
    row: int,
    lanes: int,
    c: spec_fn(int) -> int,
    s: spec_fn(int) -> A,
    v: spec_fn(int) -> A,
)
    requires
        lossless::<A>(),
        filled2(
            before,
            out,
            tokens,
            out_dim,
            projected::<A, S, T>(codes, scales, x, in_dim, block_size, lanes),
        ),
        0 <= in_dim,
        0 < block_size,
        in_dim % block_size == 0,
        codes is E2m1 ==> in_dim % 8 == 0,
        codes matches Codes::Int(_, bits) ==> 2 <= bits <= 6,
        lanes > 0,
        0 <= m < tokens,
        0 <= row < out_dim,
        row_has_codes(codes, in_dim, row, c),
        row_has_scales(scales, in_dim / block_size, row, s),
        holds_values::<A, T>(x, m * in_dim, in_dim, v),
    ensures
        out[m * out_dim + row] == T::narrow_spec(
            plain_sum(
                in_dim / block_size,
                block_sums(block_size, s, value_products(codes, c, v)),
            ),
        ),
{
    law_scaled_row_is_block_dot::<A, S, T>(
        codes,
        scales,
        x,
        m * in_dim,
        in_dim,
        block_size,
        row,
        lanes,
        c,
        s,
        v,
    );
    assert(cell(out, out_dim, m, row) == (projected::<A, S, T>(
        codes,
        scales,
        x,
        in_dim,
        block_size,
        lanes,
    ))(m, row));
}

/// In exact arithmetic a row whose E8M0 scale bytes are all raised by one gives twice as much.
#[allow(clippy::too_many_arguments)]
pub proof fn law_raised_scales_double<'a, A: Scalar, S: Storage<A> + 'a, T: Storage<A>>(
    codes: Codes<'a>,
    low: &'a [u8],
    high: &'a [u8],
    x: Seq<T>,
    off: int,
    in_dim: int,
    block_size: int,
    row: int,
    lanes: int,
)
    requires
        lossless::<A>(),
        0 <= in_dim,
        0 < block_size,
        in_dim % block_size == 0,
        codes is E2m1 ==> in_dim % 8 == 0,
        lanes > 0,
        forall|b: int|
            0 <= b < in_dim / block_size ==> #[trigger] high@[row * (in_dim / block_size) + b]
                == low@[row * (in_dim / block_size) + b] + 1,
    ensures
        scaled_row::<A, S, T>(
            codes,
            Scales::Pow2(high),
            x,
            off,
            in_dim,
            block_size,
            row,
            lanes,
        ) == whole::<A>(2).times_spec(
            scaled_row::<A, S, T>(
                codes,
                Scales::Pow2(low),
                x,
                off,
                in_dim,
                block_size,
                row,
                lanes,
            ),
        ),
{
    let (lo, hi): (Scales<'a, A, S>, Scales<'a, A, S>) = (Scales::Pow2(low), Scales::Pow2(high));
    let f = scaled_terms::<A, S, T>(codes, lo, x, off, in_dim, block_size, row);
    let h = scaled_terms::<A, S, T>(codes, hi, x, off, in_dim, block_size, row);
    let blocks = in_dim / block_size;
    let two: A = whole(2);
    if !(codes is E2m1) {
        assert(in_dim % 1 == 0);
    }
    law_scaled_row_is_plain_sum::<A, S, T>(codes, lo, x, off, in_dim, block_size, row, lanes);
    law_scaled_row_is_plain_sum::<A, S, T>(codes, hi, x, off, in_dim, block_size, row, lanes);
    assert forall|k: int| 0 <= k < in_dim implies #[trigger] h(k) == two.times_spec(f(k)) by {
        let b = k / block_size;
        crate::gemm::dequant_gemv::lemma_group_in(in_dim, block_size, k);
        let byte = low@[row * blocks + b];
        assert(high@[row * blocks + b] == byte + 1);
        law_e8m0_doubles::<A>(byte as u32);
        let w = codes.value::<A>(in_dim, row, k);
        let s = e8m0::<A>(byte as u32);
        let v: A = x[off + k].widen_spec();
        times_assoc(w, two, s);
        times_comm(w, two);
        times_assoc(two, w, s);
        times_assoc(two, w.times_spec(s), v);
    }
    lemma_sum_factor(two, 0, in_dim, f, h);
}

} // verus!
