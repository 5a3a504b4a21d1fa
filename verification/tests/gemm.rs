//! Matrix-vector and matrix-matrix products in single precision.
use wh_iron_std::gemm::batched_qkv_block_scaled_qmm;
use wh_iron_std::gemm::block_scaled_matmul::{self, Codes, Scales};
use wh_iron_std::gemm::dequant_gemv::iron_dequant_gemv;
use wh_iron_std::gemm::dequant_gemv_fast::{
    iron_dequant_gemv_int2_fast, iron_dequant_gemv_int4_fast, iron_dequant_gemv_int4_gathered,
};
use wh_iron_std::gemm::gemm_q4_bm8::iron_gemm_q4_bm8;
use wh_iron_std::gemm::gemm_q4_bm8_narrow::{iron_gemm_q4_bm8n16, iron_gemm_q4_bm8n8};
use wh_iron_std::gemm::gemm_q8::{iron_gemm_q8, iron_grouped_gemm_q8};
use wh_iron_std::gemm::gemv_axpy_inplace::iron_gemv_axpy_inplace;
use wh_iron_std::gemm::gemv_quantized::{
    iron_gemv_q4_coalesced, iron_gemv_q4_coalesced_2row, iron_gemv_q4_coalesced_accum,
    iron_gemv_q4_coalesced_relu2, iron_gemv_q4_multi, iron_gemv_q4_vec, iron_gemv_q8,
    iron_gemv_q8_coalesced, iron_gemv_q8_coalesced_accum, iron_gemv_q8_coalesced_relu2,
    iron_grouped_gemv_q8, iron_grouped_gemv_q8_rows, iron_grouped_gemv_q8_rows_tiled,
};
use wh_iron_std::gemm::indirect::iron_dequant_gemv_wants_indirect;
use wh_iron_std::primitives::{
    iron_decode_e2m1, iron_decode_e4m3, iron_decode_e5m2, iron_decode_e8m0, iron_decode_int8,
    iron_unpack_nbit,
};
use wh_iron_std::scalar::{Scalar, Storage};
use wh_iron_std::trit::Trit;

/// Single-precision registers.
#[derive(Clone, Copy, Debug, PartialEq)]
struct F(f32);

impl Scalar for F {
    fn dyadic(m: i64, e: i32) -> F {
        F((m as f64 * 2f64.powi(e)) as f32)
    }

    fn plus(self, other: F) -> F {
        F(self.0 + other.0)
    }

    fn minus(self, other: F) -> F {
        F(self.0 - other.0)
    }

    fn times(self, other: F) -> F {
        F(self.0 * other.0)
    }

    fn over(self, other: F) -> F {
        F(self.0 / other.0)
    }

    fn negated(self) -> F {
        F(-self.0)
    }

    fn above(self, other: F) -> bool {
        self.0 > other.0
    }

    fn equals(self, other: F) -> bool {
        self.0 == other.0
    }

    fn lowest() -> F {
        F(f32::NEG_INFINITY)
    }

    fn exp(self) -> F {
        F(self.0.exp())
    }

    fn rsqrt(self) -> F {
        F(1.0 / self.0.sqrt())
    }

    fn lanes_sum(parts: &Vec<F>) -> F {
        F(parts.iter().map(|p| p.0).sum())
    }

    fn mma(acc: F, a: &Vec<F>, b: &Vec<F>) -> F {
        F(a.iter().zip(b).fold(acc.0, |s, (x, y)| s + x.0 * y.0))
    }
}

/// Half-precision buffers.
#[derive(Clone, Copy, Debug, PartialEq)]
struct H(half::f16);

impl Storage<F> for H {
    fn widen(self) -> F {
        F(self.0.to_f32())
    }

    fn narrow(a: F) -> H {
        H(half::f16::from_f32(a.0))
    }
}

fn fs(v: &[f32]) -> Vec<F> {
    v.iter().map(|&x| F(x)).collect()
}

fn hs(v: &[f32]) -> Vec<H> {
    v.iter().map(|&x| H(half::f16::from_f32(x))).collect()
}

fn close(got: &[F], want: &[f32], tol: f32) {
    assert_eq!(got.len(), want.len());
    for (i, (g, w)) in got.iter().zip(want).enumerate() {
        assert!((g.0 - w).abs() <= tol * (1.0 + w.abs()), "element {}: {} against {}", i, g.0, w);
    }
}

fn ramp(n: usize, period: usize, step: f32, shift: f32) -> Vec<f32> {
    (0..n).map(|i| ((i * 7 + 3) % period) as f32 * step - shift).collect()
}

/// Packs rows of codes into bit streams of whole words.
fn pack_codes(codes: &[u32], rows: usize, cols: usize, bits: usize) -> Vec<u32> {
    let words = cols * bits / 32;
    let mut out = vec![0u32; rows * words + 1];
    for r in 0..rows {
        for k in 0..cols {
            let at = k * bits;
            let (w, s) = (r * words + at / 32, at % 32);
            let v = (codes[r * cols + k] as u64) << s;
            out[w] |= v as u32;
            if s + bits > 32 {
                out[w + 1] |= (v >> 32) as u32;
            }
        }
    }
    out
}

struct Affine {
    weight: Vec<u32>,
    scales: Vec<f32>,
    biases: Vec<f32>,
    input: Vec<f32>,
    want: Vec<f32>,
}

fn affine(bits: usize, rows: usize, cols: usize, group: usize) -> Affine {
    let codes: Vec<u32> =
        (0..rows * cols).map(|i| ((i * 13 + i / 7) % (1 << bits)) as u32).collect();
    let scales = ramp(rows * cols / group, 11, 0.03125, 0.125);
    let biases = ramp(rows * cols / group, 5, 0.25, 0.5);
    let input = ramp(cols, 17, 0.125, 1.0);
    let want = (0..rows)
        .map(|r| {
            (0..cols)
                .map(|k| {
                    let g = r * (cols / group) + k / group;
                    (codes[r * cols + k] as f32 * scales[g] + biases[g]) * input[k]
                })
                .sum()
        })
        .collect();
    Affine { weight: pack_codes(&codes, rows, cols, bits), scales, biases, input, want }
}

#[test]
fn dequant_gemv_is_the_decoded_dot_product() {
    for bits in [2u32, 3, 4, 5, 6, 8] {
        let a = affine(bits as usize, 5, 256, 64);
        let mut out = fs(&[9.0; 6]);
        iron_dequant_gemv(
            bits, &a.weight, &fs(&a.scales), &fs(&a.biases), &fs(&a.input), &mut out, 256, 64, 5,
            64,
        );
        close(&out[..5], &a.want, 1e-4);
        assert_eq!(out[5], F(9.0));
    }
}

#[test]
fn dequant_gemv_takes_the_group_of_each_column() {
    for (cols, group) in [(96usize, 16usize), (48, 16), (48, 24), (64, 8)] {
        for bits in [3u32, 5, 6] {
            let a = affine(bits as usize, 1, cols, group);
            let mut out = fs(&[0.0]);
            iron_dequant_gemv(
                bits, &a.weight, &fs(&a.scales), &fs(&a.biases), &fs(&a.input), &mut out,
                cols as u32, group as u32, 1, 32,
            );
            close(&out, &a.want, 1e-4);
        }
    }
}

#[test]
fn dequant_gemv_rounds_to_its_buffers() {
    let a = affine(4, 3, 128, 32);
    let mut out = hs(&[0.0; 3]);
    iron_dequant_gemv::<F, H>(
        4, &a.weight, &hs(&a.scales), &hs(&a.biases), &hs(&a.input), &mut out, 128, 32, 3, 32,
    );
    for (g, w) in out.iter().zip(&a.want) {
        assert!((g.0.to_f32() - w).abs() <= 1e-2 * (1.0 + w.abs()));
    }
}

#[test]
fn fast_kernels_give_the_decoded_dot_product() {
    for bits in [2usize, 4] {
        let a = affine(bits, 8, 1024, 64);
        let (s, b, x) = (fs(&a.scales), fs(&a.biases), fs(&a.input));
        let mut out = fs(&[0.0; 8]);
        if bits == 2 {
            iron_dequant_gemv_int2_fast(&a.weight, &s, &b, &x, &mut out, 1024, 64, 8);
        } else {
            iron_dequant_gemv_int4_fast(&a.weight, &s, &b, &x, &mut out, 1024, 64, 8);
        }
        close(&out, &a.want, 1e-4);
    }
}

#[test]
fn gathered_rows_are_the_rows() {
    let a = affine(4, 16, 512, 64);
    let (s, b, x) = (fs(&a.scales), fs(&a.biases), fs(&a.input));
    let mut all = fs(&[0.0; 16]);
    iron_dequant_gemv_int4_fast(&a.weight, &s, &b, &x, &mut all, 512, 64, 16);
    let rows = [15u32, 0, 3, 3, 7, 8, 2, 9];
    let mut out = fs(&[0.0; 8]);
    iron_dequant_gemv_int4_gathered(&a.weight, &s, &b, &rows, &x, &mut out, 512, 64, 8);
    let want: Vec<F> = rows.iter().map(|&r| all[r as usize]).collect();
    assert_eq!(out, want);
}

#[test]
fn indirect_variants() {
    assert!(iron_dequant_gemv_wants_indirect("iron_dequant_gemv_int4_f16"));
    assert!(iron_dequant_gemv_wants_indirect("iron_dequant_gemv_int4_bf16"));
    assert!(!iron_dequant_gemv_wants_indirect("iron_dequant_gemv_int4_f32"));
    assert!(!iron_dequant_gemv_wants_indirect("iron_dequant_gemv_int2_f16"));
    assert!(!iron_dequant_gemv_wants_indirect(""));
}

const E2M1: [f32; 8] = [0.0, 0.5, 1.0, 1.5, 2.0, 3.0, 4.0, 6.0];

fn e2m1(code: u32) -> f32 {
    let v = E2M1[(code & 7) as usize];
    if code & 8 != 0 {
        -v
    } else {
        v
    }
}

#[test]
fn decoders_give_the_values_of_their_formats() {
    for code in 0..16u32 {
        assert_eq!(iron_decode_e2m1::<F>(code).0, e2m1(code));
    }
    let e4m3: [(u32, f32); 8] = [
        (0x38, 1.0), (0x01, 0.001953125), (0x08, 0.015625), (0x7e, 448.0), (0x7f, 448.0),
        (0xff, -448.0), (0xb8, -1.0), (0, 0.0),
    ];
    for (code, v) in e4m3 {
        assert_eq!(iron_decode_e4m3::<F>(code).0, v);
    }
    for code in 0..256u32 {
        assert!(iron_decode_e4m3::<F>(code).0.abs() <= 448.0);
    }
    let e5m2: [(u32, f32); 5] =
        [(0x3c, 1.0), (0x01, 0.0000152587890625), (0x7b, 57344.0), (0xbc, -1.0), (0x3e, 1.5)];
    for (code, v) in e5m2 {
        assert_eq!(iron_decode_e5m2::<F>(code).0, v);
    }
    for code in 0..256u32 {
        let want = half::f16::from_bits((code << 8) as u16).to_f32();
        let got = iron_decode_e5m2::<F>(code).0;
        assert!(got == want || got.is_nan() && want.is_nan(), "{code}");
    }
    for (code, v) in [(0u32, 0.0f32), (127, 127.0), (128, -128.0), (255, -1.0)] {
        assert_eq!(iron_decode_int8::<F>(code).0, v);
    }
    for (raw, v) in [(127u32, 1.0f32), (128, 2.0), (120, 0.0078125)] {
        assert_eq!(iron_decode_e8m0::<F>(raw).0, v);
    }
}

#[test]
fn unpacking_joins_the_halves_of_a_straddling_code() {
    assert_eq!(iron_unpack_nbit(0xABCD_EF01, 0, 4, 4, 0), 0);
    assert_eq!(iron_unpack_nbit(0xABCD_EF01, 0, 8, 4, 0), 15);
    assert_eq!(iron_unpack_nbit(0xC000_0000, 0b101, 30, 2, 3), 0b10111);
}

fn scaled_case(codes: &Codes, scales: &Scales<F, F>, value: &dyn Fn(usize, usize) -> f32) {
    let (rows, cols, block) = (3usize, 64usize, 16usize);
    let x = ramp(2 * cols, 13, 0.25, 1.5);
    let mut out = fs(&[0.0; 3]);
    block_scaled_matmul::iron(
        codes, scales, &fs(&x[..cols]), &mut out, cols as u32, block as u32, rows as u32, 32,
    );
    let dot = |m: usize, r: usize| -> f32 {
        (0..cols).map(|k| value(r, k) * x[m * cols + k]).sum()
    };
    close(&out, &[dot(0, 0), dot(0, 1), dot(0, 2)], 1e-4);
    let (mut q, mut k, mut v) = (fs(&[0.0; 6]), fs(&[0.0; 4]), fs(&[5.0; 3]));
    batched_qkv_block_scaled_qmm::iron(
        &fs(&x), codes, scales, codes, scales, codes, scales, &mut q, &mut k, &mut v, 3, 2, 1,
        cols as u32, block as u32, 2, 32,
    );
    close(&q, &[dot(0, 0), dot(0, 1), dot(0, 2), dot(1, 0), dot(1, 1), dot(1, 2)], 1e-4);
    close(&k, &[dot(0, 0), dot(0, 1), dot(1, 0), dot(1, 1)], 1e-4);
    close(&v, &[dot(0, 0), dot(1, 0), 5.0], 1e-4);
}

#[test]
fn block_scaled_products_of_every_format() {
    let (rows, cols) = (3usize, 64usize);
    let nibbles: Vec<u32> = (0..rows * cols).map(|i| ((i * 5 + 1) % 16) as u32).collect();
    let fp4 = pack_codes(&nibbles, rows, cols, 4);
    let bytes: Vec<u8> = (0..rows * cols).map(|i| ((i * 37 + 11) % 119) as u8).collect();
    let direct = fs(&ramp(rows * 4, 7, 0.125, 0.25));
    let at = |r: usize, k: usize| direct[r * 4 + k / 16].0;
    scaled_case(&Codes::E2m1(&fp4), &Scales::Direct(&direct), &|r, k| {
        e2m1(nibbles[r * cols + k]) * at(r, k)
    });
    let pow2: Vec<u8> = (0..rows * 4).map(|i| 120 + (i % 9) as u8).collect();
    scaled_case(&Codes::E2m1(&fp4), &Scales::Pow2(&pow2), &|r, k| {
        e2m1(nibbles[r * cols + k]) * 2f32.powi(pow2[r * 4 + k / 16] as i32 - 127)
    });
    let micro: Vec<u8> = (0..rows * 4).map(|i| 0x30 + (i % 13) as u8).collect();
    scaled_case(&Codes::E2m1(&fp4), &Scales::Micro(&micro, F(0.5)), &|r, k| {
        e2m1(nibbles[r * cols + k])
            * iron_decode_e4m3::<F>(micro[r * 4 + k / 16] as u32).0
            * 0.5
    });
    scaled_case(&Codes::E4m3(&bytes), &Scales::Direct(&direct), &|r, k| {
        iron_decode_e4m3::<F>(bytes[r * cols + k] as u32).0 * at(r, k)
    });
    scaled_case(&Codes::E5m2(&bytes), &Scales::Pow2(&pow2), &|r, k| {
        iron_decode_e5m2::<F>(bytes[r * cols + k] as u32).0
            * 2f32.powi(pow2[r * 4 + k / 16] as i32 - 127)
    });
    let signed: Vec<u8> = (0..rows * cols).map(|i| (i * 37 % 256) as u8).collect();
    scaled_case(&Codes::Int8(&signed), &Scales::Direct(&direct), &|r, k| {
        signed[r * cols + k] as i8 as f32 * at(r, k)
    });
    for bits in 2..=6u32 {
        let codes: Vec<u32> =
            (0..rows * cols).map(|i| ((i * 11 + 2) % (1 << bits)) as u32).collect();
        let words = pack_codes(&codes, rows, cols, bits as usize);
        scaled_case(&Codes::Int(&words, bits), &Scales::Direct(&direct), &|r, k| {
            let c = codes[r * cols + k] as i32;
            let v = if c >= 1 << (bits - 1) { c - (1 << bits) } else { c };
            v as f32 * at(r, k)
        });
    }
}

struct Quantised {
    qs: Vec<u32>,
    d: Vec<f32>,
    w: Vec<f32>,
}

fn q8(rows: usize, cols: usize) -> Quantised {
    let q: Vec<i32> = (0..rows * cols).map(|i| (i * 29 % 256) as i32 - 128).collect();
    let d = ramp(rows * cols / 32, 9, 0.015625, 0.0625);
    let qs = q
        .chunks(4)
        .map(|c| c.iter().enumerate().fold(0u32, |w, (i, &v)| w | (v as u8 as u32) << (8 * i)))
        .collect();
    let w = (0..rows * cols).map(|i| d[i / 32] * q[i] as f32).collect();
    Quantised { qs, d, w }
}

fn q4(rows: usize, cols: usize) -> Quantised {
    let q: Vec<i32> = (0..rows * cols).map(|i| (i * 7 + i / 32) as i32 % 16 - 8).collect();
    let d = ramp(rows * cols / 32, 9, 0.03125, 0.0625);
    let qs = q
        .chunks(8)
        .map(|c| c.iter().enumerate().fold(0u32, |w, (i, &v)| w | (v as u32 & 15) << (4 * i)))
        .collect();
    let w = (0..rows * cols).map(|i| d[i / 32] * q[i] as f32).collect();
    Quantised { qs, d, w }
}

/// `W . x` with a slice of `x` for every `per` rows.
fn dense(w: &[f32], x: &[f32], rows: usize, cols: usize, per: usize) -> Vec<f32> {
    (0..rows)
        .map(|r| (0..cols).map(|k| w[r * cols + k] * x[r / per * cols + k]).sum())
        .collect()
}

#[test]
fn q8_gemvs_are_the_decoded_product() {
    let (rows, cols, per) = (6usize, 160usize, 2usize);
    let a = q8(rows, cols);
    let x = ramp(3 * cols, 13, 0.0625, 0.4);
    let (d, xf) = (fs(&a.d), fs(&x));
    let mut out = fs(&[7.0; 7]);
    iron_gemv_q8::<F, F, F>(&a.qs, &d, &xf[..cols], &mut out, 160, 6);
    close(&out[..6], &dense(&a.w, &x, rows, cols, rows), 1e-4);
    assert_eq!(out[6], F(7.0));
    let want = dense(&a.w, &x, rows, cols, per);
    iron_grouped_gemv_q8::<F, F, F>(&a.qs, &d, &xf, &mut out, 160, 6, 2);
    close(&out[..6], &want, 1e-4);
    iron_gemv_q8_coalesced::<F, F, F>(&a.qs, &d, &xf, &mut out, 160, 6, 2);
    close(&out[..6], &want, 1e-4);
    iron_gemv_q8_coalesced_relu2::<F, F, F>(&a.qs, &d, &xf, &mut out, 160, 6, 2);
    let relu: Vec<f32> = want.iter().map(|&v| v.max(0.0) * v.max(0.0)).collect();
    assert!(relu.iter().any(|&v| v == 0.0) && relu.iter().any(|&v| v > 0.0));
    close(&out[..6], &relu, 1e-3);
    let mut acc = fs(&[1.0; 7]);
    iron_gemv_q8_coalesced_accum::<F, F, F>(&a.qs, &d, &xf, &mut acc, &[F(0.5)], 160, 6, 2);
    let sum: Vec<f32> = want.iter().map(|&v| 1.0 + 0.5 * v).collect();
    close(&acc[..6], &sum, 1e-4);
    assert_eq!(acc[6], F(1.0));
}

#[test]
fn q8_batches_are_the_single_tokens() {
    let (rows, cols) = (4usize, 64usize);
    let a = q8(rows, cols);
    let x = fs(&ramp(11 * 2 * cols, 31, 0.0625, 0.9));
    let d = fs(&a.d);
    let (mut one, mut two) = (fs(&[0.0; 44]), fs(&[0.0; 44]));
    iron_grouped_gemv_q8_rows::<F, F, F>(&a.qs, &d, &x, &mut one, 64, 4, 2, 11);
    iron_grouped_gemv_q8_rows_tiled::<F, F, F>(&a.qs, &d, &x, &mut two, 64, 4, 2, 11);
    assert_eq!(one, two);
    for t in 0..11 {
        let mut own = fs(&[0.0; 4]);
        iron_grouped_gemv_q8::<F, F, F>(&a.qs, &d, &x[t * 128..], &mut own, 64, 4, 2);
        assert_eq!(&one[t * 4..t * 4 + 4], &own[..]);
    }
}

#[test]
fn q4_gemvs_are_the_decoded_product() {
    let (rows, cols, per) = (7usize, 192usize, 4usize);
    let a = q4(rows, cols);
    let x = ramp(2 * cols, 13, 0.0625, 0.4);
    let (d, xf) = (fs(&a.d), fs(&x));
    let want = dense(&a.w, &x, rows, cols, per);
    let mut out = fs(&[0.0; 7]);
    iron_gemv_q4_coalesced::<F, F, F>(&a.qs, &d, &xf, &mut out, 192, 7, 4, 1);
    close(&out, &want, 1e-4);
    let mut wide = fs(&[0.0; 7]);
    iron_gemv_q4_coalesced::<F, F, F>(&a.qs, &d, &xf, &mut wide, 192, 7, 4, 3);
    assert_eq!(out, wide);
    let mut pairs = fs(&[0.0; 7]);
    iron_gemv_q4_coalesced_2row::<F, F, F>(&a.qs, &d, &xf, &mut pairs, 192, 7, 4, 2);
    assert_eq!(out, pairs);
    let mut blocks = fs(&[0.0; 7]);
    iron_gemv_q4_vec::<F, F, F>(&a.qs, &d, &xf, &mut blocks, 192, 7, 4);
    close(&blocks, &want, 1e-4);
    let mut relu = fs(&[0.0; 7]);
    iron_gemv_q4_coalesced_relu2::<F, F, F>(&a.qs, &d, &xf, &mut relu, 192, 7, 4, 4);
    let squared: Vec<f32> = want.iter().map(|&v| v.max(0.0) * v.max(0.0)).collect();
    close(&relu, &squared, 1e-3);
    let mut acc = fs(&ramp(7, 5, 0.5, 1.0));
    let sum: Vec<f32> = acc.iter().zip(&want).map(|(p, &v)| p.0 - 2.0 * v).collect();
    iron_gemv_q4_coalesced_accum::<F, F, F>(&a.qs, &d, &xf, &mut acc, &[F(-2.0)], 192, 7, 4, 2);
    close(&acc, &sum, 1e-4);
}

#[test]
fn q4_gemv_reads_half_precision_scales() {
    let a = q4(2, 64);
    let x = ramp(64, 13, 0.0625, 0.4);
    let mut out = hs(&[0.0; 2]);
    iron_gemv_q4_coalesced::<F, H, H>(&a.qs, &hs(&a.d), &hs(&x), &mut out, 64, 2, 2, 1);
    for (g, w) in out.iter().zip(dense(&a.w, &x, 2, 64, 2)) {
        assert!((g.0.to_f32() - w).abs() <= 1e-2 * (1.0 + w.abs()));
    }
}

#[test]
fn candidates_get_what_single_vectors_get() {
    let (rows, cols) = (6usize, 96usize);
    let a = q4(rows, cols);
    let d = fs(&a.d);
    for m in 2..=5usize {
        let x = fs(&ramp(m * 2 * cols, 23, 0.0625, 0.7));
        let mut out = fs(&vec![0.0; m * rows]);
        iron_gemv_q4_multi::<F, F, F>(&a.qs, &d, &x, &mut out, 96, 6, 3, 2, m as u32);
        for t in 0..m {
            let mut own = fs(&[0.0; 6]);
            iron_gemv_q4_coalesced::<F, F, F>(
                &a.qs, &d, &x[t * 2 * cols..], &mut own, 96, 6, 3, 1,
            );
            assert_eq!(&out[t * rows..(t + 1) * rows], &own[..]);
        }
    }
}

#[test]
fn tiled_q4_products_do_not_depend_on_the_tile_width() {
    let (rows, cols, k) = (11usize, 37usize, 64usize);
    let a = q4(cols, k);
    let x = ramp(rows * k, 19, 0.0625, 0.5);
    let (d, xf) = (fs(&a.d), fs(&x));
    let mut out = fs(&vec![3.0; rows * cols + 1]);
    iron_gemm_q4_bm8::<F, F, F, F>(&xf, &a.qs, &d, &mut out, 11, 37, 64);
    for r in 0..rows {
        let want = dense(&a.w, &x[r * k..], cols, k, cols);
        close(&out[r * cols..(r + 1) * cols], &want, 1e-4);
    }
    assert_eq!(out[rows * cols], F(3.0));
    let mut n16 = fs(&vec![3.0; rows * cols + 1]);
    iron_gemm_q4_bm8n16::<F, F, F, F>(&xf, &a.qs, &d, &mut n16, 11, 37, 64);
    let mut n8 = fs(&vec![3.0; rows * cols + 1]);
    iron_gemm_q4_bm8n8::<F, F, F, F>(&xf, &a.qs, &d, &mut n8, 11, 37, 64);
    assert_eq!(out, n16);
    assert_eq!(out, n8);
}

#[test]
fn tiled_q4_products_stage_through_their_type() {
    let a = q4(8, 32);
    let x = vec![1.0 + 1.0 / 4096.0; 32];
    let ones: Vec<f32> = vec![1.0; 32];
    let d = fs(&a.d);
    let (mut out, mut want) = (fs(&[0.0; 8]), fs(&[0.0; 8]));
    iron_gemm_q4_bm8::<F, H, F, F>(&fs(&x), &a.qs, &d, &mut out, 1, 8, 32);
    iron_gemm_q4_bm8::<F, H, F, F>(&fs(&ones), &a.qs, &d, &mut want, 1, 8, 32);
    assert_eq!(out, want);
}

#[test]
fn tiled_q8_products_are_the_decoded_product() {
    let (rows, cols, k) = (35usize, 70usize, 96usize);
    let a = q8(cols, k);
    let x = ramp(rows * k, 19, 0.0625, 0.5);
    let mut out = fs(&vec![0.0; rows * cols]);
    iron_gemm_q8::<F, F>(&a.qs, &fs(&a.d), &fs(&x), &mut out, 96, 70, 35);
    for r in 0..rows {
        let want = dense(&a.w, &x[r * k..], cols, k, cols);
        close(&out[r * cols..(r + 1) * cols], &want, 1e-4);
    }
}

#[test]
fn grouped_q8_products_read_their_groups() {
    let (rows, cols, k, groups) = (3usize, 128usize, 32usize, 2usize);
    let a = q8(cols, k);
    let x = ramp(rows * groups * k, 19, 0.0625, 0.5);
    let mut out = fs(&vec![0.0; rows * cols]);
    iron_grouped_gemm_q8::<F, F>(&a.qs, &fs(&a.d), &fs(&x), &mut out, 32, 128, 3, 2, 64);
    for r in 0..rows {
        let want = dense(&a.w, &x[r * groups * k..], cols, k, 64);
        close(&out[r * cols..(r + 1) * cols], &want, 1e-4);
    }
}

#[test]
fn axpy_adds_the_weighted_product() {
    for (m, k, weight) in [(16usize, 256usize, 0.42f32), (16, 256, -0.3), (5, 33, 2.0)] {
        let mat: Vec<f32> = (0..m * k).map(|i| ((i % 17) as f32 - 8.0) * 0.01).collect();
        let vec: Vec<f32> = (0..k).map(|j| ((j % 13) as f32 - 6.0) * 0.02).collect();
        let acc: Vec<f32> = (0..m).map(|r| (r as f32 % 5.0) * 0.1 - 0.2).collect();
        let want: Vec<f32> = (0..m)
            .map(|r| acc[r] + weight * (0..k).map(|j| mat[r * k + j] * vec[j]).sum::<f32>())
            .collect();
        let mut got = fs(&acc);
        iron_gemv_axpy_inplace(
            &fs(&mat), &fs(&vec), &mut got, k as u32, F(weight), m as u32, 256,
        );
        close(&got, &want, 1e-3);
    }
}

#[test]
fn remainders_are_exact_whatever_the_order() {
    let t = [Trit::Zero, Trit::One, Trit::Two];
    let d: Vec<Trit> = (0..6).map(|i| t[i % 3]).collect();
    let x: Vec<Trit> = (0..64).map(|i| t[i * i % 3]).collect();
    let a = q4(3, 64);
    let (mut words, mut blocks) = (vec![Trit::Zero; 3], vec![Trit::Zero; 3]);
    iron_gemv_q4_coalesced::<Trit, Trit, Trit>(&a.qs, &d, &x, &mut words, 64, 3, 3, 1);
    iron_gemv_q4_vec::<Trit, Trit, Trit>(&a.qs, &d, &x, &mut blocks, 64, 3, 3);
    assert_eq!(words, blocks);
    assert!(words.iter().any(|&v| v != Trit::Zero));
    assert_eq!(Trit::dyadic(1, -1), Trit::Two);
    assert_eq!(Trit::One.over(Trit::Two), Trit::Two);
    assert_eq!(Trit::lanes_sum(&vec![Trit::Two, Trit::Two]), Trit::One);
    assert_eq!(Trit::mma(Trit::One, &vec![Trit::Two], &vec![Trit::Two]), Trit::Two);
}
