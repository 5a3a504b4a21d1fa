//! Copies, selections, layouts, block formats, normalisation and convolution.
use wh_iron_std::convolution::depthwise_conv1d::iron_depthwise_conv1d;
use wh_iron_std::hyper_connections::mhc::{iron_mhc_collapse, iron_mhc_expand};
use wh_iron_std::kv_cache::compact_kv::{
    iron_compact_kv, iron_transpose_htd, iron_transpose_thd,
};
use wh_iron_std::norm::layer_norm::iron_layer_norm;
use wh_iron_std::ops::argmax_rows::iron_argmax_rows;
use wh_iron_std::ops::copy::{iron_copy, iron_slice};
use wh_iron_std::ops::indexed_argmax::iron_indexed_argmax;
use wh_iron_std::ops::split_scatter_columns::iron_split_scatter_columns;
use wh_iron_std::quant::dequant_q4::iron_dequant_q4;
use wh_iron_std::quant::gguf_dequant_q2_k::iron_gguf_dequant_q2_k;
use wh_iron_std::quant::gguf_iq2_xxs_extract_qs::iron_gguf_iq2_xxs_extract_qs;
use wh_iron_std::scalar::{Scalar, Storage};

/// Single-precision registers.
#[derive(Clone, Copy, Debug, PartialEq)]
struct F(f32);

impl Scalar for F {
    fn dyadic(m: i64, e: i32) -> F {
        F((m as f64 * 2f64.powi(e)) as f32)
    }

    fn plus(self, other: F) -> F {
        F(self.0 + other.0)
    }

    fn minus(self, other: F) -> F {
        F(self.0 - other.0)
    }

    fn times(self, other: F) -> F {
        F(self.0 * other.0)
    }

    fn over(self, other: F) -> F {
        F(self.0 / other.0)
    }

    fn negated(self) -> F {
        F(-self.0)
    }

    fn above(self, other: F) -> bool {
        self.0 > other.0
    }

    fn equals(self, other: F) -> bool {
        self.0 == other.0
    }

    fn lowest() -> F {
        F(f32::NEG_INFINITY)
    }

    fn exp(self) -> F {
        F(self.0.exp())
    }

    fn rsqrt(self) -> F {
        F(1.0 / self.0.sqrt())
    }

    fn lanes_sum(parts: &Vec<F>) -> F {
        F(parts.iter().map(|p| p.0).sum())
    }

    fn mma(acc: F, a: &Vec<F>, b: &Vec<F>) -> F {
        F(a.iter().zip(b).fold(acc.0, |s, (x, y)| s + x.0 * y.0))
    }
}

/// Half-precision buffers.
#[derive(Clone, Copy, Debug, PartialEq)]
struct H(half::f16);

impl Storage<F> for H {
    fn widen(self) -> F {
        F(self.0.to_f32())
    }

    fn narrow(a: F) -> H {
        H(half::f16::from_f32(a.0))
    }
}

fn fs(v: &[f32]) -> Vec<F> {
    v.iter().map(|&x| F(x)).collect()
}

fn hs(v: &[f32]) -> Vec<H> {
    v.iter().map(|&x| H(half::f16::from_f32(x))).collect()
}

fn close(got: &[F], want: &[f32], tol: f32) {
    assert_eq!(got.len(), want.len());
    for (i, (g, w)) in got.iter().zip(want).enumerate() {
        assert!((g.0 - w).abs() <= tol * (1.0 + w.abs()), "element {}: {} against {}", i, g.0, w);
    }
}

#[test]
fn copies_and_slices() {
    let a: Vec<u32> = (0..10).collect();
    let mut out = vec![99u32; 12];
    iron_copy(&a, &mut out, 10);
    assert_eq!(&out[..10], &a[..]);
    assert_eq!(&out[10..], &[99, 99]);
    let mut dst = vec![99u32; 5];
    iron_slice(&a, &mut dst, 6, 4);
    assert_eq!(dst, vec![6, 7, 8, 9, 99]);
    iron_slice(&a, &mut dst, 10, 0);
    assert_eq!(dst[0], 6);
}

#[test]
fn indexed_argmax_prefers_the_lower_id() {
    let values = [1.0, 7.0, f32::NAN, 3.0, 7.0, -2.0, 4.0, 0.0];
    let ids = [90u32, 81, 2, 17, 12, 44, 9, 31];
    let mut out = vec![0u32, 5];
    iron_indexed_argmax(&fs(&values), &ids, &mut out, 8);
    assert_eq!(out, vec![12, 5]);
    iron_indexed_argmax::<F, H>(&hs(&values), &ids, &mut out, 8);
    assert_eq!(out[0], 12);
}

#[test]
fn indexed_argmax_of_no_number() {
    let mut out = vec![0u32];
    iron_indexed_argmax(&fs(&[f32::NAN, f32::NAN]), &[3, 4], &mut out, 2);
    assert_eq!(out[0], 3);
    iron_indexed_argmax(&fs(&[f32::NAN, f32::NAN]), &[u32::MAX, 4], &mut out, 2);
    assert_eq!(out[0], 4);
    iron_indexed_argmax(&fs(&[f32::NEG_INFINITY, f32::NAN]), &[3, 1], &mut out, 2);
    assert_eq!(out[0], 3);
    iron_indexed_argmax(&fs(&[1.0]), &[3], &mut out, 0);
    assert_eq!(out[0], u32::MAX);
}

#[test]
fn argmax_rows_takes_the_first_maximum() {
    let (rows, cols) = (9usize, 2000usize);
    let mut source: Vec<f32> =
        (0..rows * cols).map(|i| ((i * 73 + 29) % 1009) as f32 / 1024.0).collect();
    let mut want = Vec::new();
    for row in 0..rows {
        let lower = 97 + row * 103;
        source[row * cols + lower] = 10.0;
        source[row * cols + lower + 900] = 10.0;
        source[row * cols + lower + 1] = f32::NAN;
        want.push(lower as u32);
    }
    let mut out = vec![0u32; rows];
    iron_argmax_rows(&fs(&source), &mut out, cols as u32, rows as u32);
    assert_eq!(out, want);
}

#[test]
fn argmax_rows_at_the_edges() {
    let inf = f32::NEG_INFINITY;
    let rows = [f32::NAN, f32::NAN, inf, f32::NAN, f32::NAN, inf, -3.0, -3.0];
    let mut out = vec![0u32; 4];
    iron_argmax_rows(&fs(&rows), &mut out, 2, 4);
    assert_eq!(out, vec![0, 0, 1, 0]);
    iron_argmax_rows(&fs(&[]), &mut out, 0, 2);
    assert_eq!(out, vec![u32::MAX, u32::MAX, 1, 0]);
}

#[test]
fn split_scatter_moves_every_segment() {
    let (rows, sw, pw, cw) = (4usize, 3usize, 7usize, 2usize);
    let width = sw + 2 * cw;
    let input: Vec<i32> = (0..(rows * width) as i32).map(|i| i * 3 - 5).collect();
    let indices = [5u32, 1, 6];
    let mut primary: Vec<i32> = (0..(rows * pw) as i32).map(|i| 1000 + i).collect();
    let (mut second, mut third) = (vec![0i32; rows * cw], vec![0i32; rows * cw]);
    let mut want = primary.clone();
    let (mut want2, mut want3) = (second.clone(), third.clone());
    for r in 0..rows {
        for c in 0..sw {
            want[r * pw + indices[c] as usize] = input[r * width + c];
        }
        for c in 0..cw {
            want2[r * cw + c] = input[r * width + sw + c];
            want3[r * cw + c] = input[r * width + sw + cw + c];
        }
    }
    iron_split_scatter_columns(
        &input, &indices, &mut primary, &mut second, &mut third, 3, 7, 2, (rows * width) as u32,
    );
    assert_eq!((primary, second, third), (want, want2, want3));
}

#[test]
fn transposes_exchange_tokens_and_heads_and_undo_each_other() {
    let (t_len, heads, dim) = (4usize, 2usize, 8usize);
    let input: Vec<u32> = (0..(t_len * heads * dim) as u32).collect();
    let mut there = vec![0u32; input.len()];
    iron_transpose_thd(&input, &mut there, 4, 2, 8);
    for t in 0..t_len {
        for h in 0..heads {
            for d in 0..dim {
                assert_eq!(there[(h * t_len + t) * dim + d], input[(t * heads + h) * dim + d]);
            }
        }
    }
    let mut back = vec![0u32; input.len()];
    iron_transpose_htd(&there, &mut back, 4, 2, 8);
    assert_eq!(back, input);
}

#[test]
fn compaction_keeps_the_first_positions_of_every_head() {
    let (n_kv, max_seq, k_len, dim) = (2usize, 8usize, 3usize, 4usize);
    let src: Vec<u32> = (0..(n_kv * max_seq * dim) as u32).collect();
    let mut dst = vec![7u32; n_kv * k_len * dim + 1];
    iron_compact_kv(&src, &mut dst, 2, 8, 3, 4);
    for h in 0..n_kv {
        for t in 0..k_len {
            for d in 0..dim {
                assert_eq!(dst[(h * k_len + t) * dim + d], src[(h * max_seq + t) * dim + d]);
            }
        }
    }
    assert_eq!(dst[n_kv * k_len * dim], 7);
}

#[test]
fn dequant_q4_expands_blocks_from_an_offset() {
    let (rows, k) = (3usize, 64usize);
    let q: Vec<i32> = (0..(rows * k) as i32).map(|i| i * 5 % 16 - 8).collect();
    let mut qs = vec![0u32; 4];
    qs.extend(q.chunks(8).map(|c| {
        c.iter().enumerate().fold(0u32, |w, (i, &v)| w | (v as u32 & 15) << (4 * i))
    }));
    let mut scales = vec![100.0f32];
    scales.extend((0..rows * k / 32).map(|i| 0.25 * (i as f32 + 1.0)));
    let want: Vec<f32> = (0..rows * k).map(|i| q[i] as f32 * scales[1 + i / 32]).collect();
    let mut out = fs(&vec![0.0; rows * k]);
    iron_dequant_q4::<F, F, F>(&qs, &fs(&scales), &mut out, 64, (rows * k / 8) as u32, 1);
    assert_eq!(out, fs(&want));
}

const ANCHOR_SCALES: [u8; 16] = [
    0x00, 0xff, 0xf0, 0x0f, 0x4c, 0x38, 0x31, 0xa7,
    0x80, 0x68, 0xe6, 0x93, 0x2e, 0x93, 0x70, 0x19,
    ];

const ANCHOR_QS: [u8; 64] = [
    0x00, 0xff, 0x4d, 0x55, 0x9b, 0xaa, 0xc3, 0x59,
    0x73, 0x69, 0xa7, 0x9a, 0xbc, 0xa2, 0x77, 0xca,
    0xeb, 0x9e, 0x48, 0xa2, 0xbc, 0xf0, 0x97, 0x6a,
    0xd8, 0x75, 0xb4, 0x06, 0x16, 0xe3, 0xa2, 0x63,
    0x7c, 0xd6, 0xb3, 0x79, 0x8e, 0xf7, 0xc7, 0x2b,
    0x8a, 0x4c, 0xdf, 0x14, 0x98, 0xc7, 0xa2, 0x79,
    0xe2, 0x58, 0xd6, 0xc4, 0x82, 0xc6, 0x66, 0xea,
    0x0a, 0x20, 0xaa, 0xe2, 0x7d, 0x75, 0xf4, 0xc8,
    ];

const ANCHOR_VALUES: [f32; 256] = [
    0.0, 0.0, 0.0, 0.0, 0.0, 0.0, 0.0, 0.0,
    0.0, 0.0, 0.0, 0.0, 0.0, 0.0, 0.0, 0.0,
    2.34375, 1.40625, -0.46875, 1.40625, -0.46875, -0.46875, 2.34375, 1.40625,
    -0.46875, 0.46875, -0.46875, 1.40625, 1.40625, 2.34375, 1.40625, 2.34375,
    -0.46875, -0.46875, -0.46875, -0.46875, -0.46875, -0.46875, -0.46875, -0.46875,
    -0.46875, -0.46875, -0.46875, -0.46875, -0.46875, -0.46875, -0.46875, -0.46875,
    1.875, 2.8125, 1.875, 0.0, 2.8125, 0.0, 0.9375, 1.875,
    1.875, 0.9375, 0.9375, 0.9375, 0.9375, 0.0, 0.0, 0.0,
    -0.125, 2.125, -0.125, 0.625, 0.625, 1.375, -0.125, 0.625,
    2.125, 1.375, 1.375, 0.625, 2.125, 1.375, 2.125, -0.125,
    0.90625, 0.40625, -0.09375, 0.90625, 1.40625, 1.40625, 0.40625, 0.90625,
    0.40625, 1.40625, 1.40625, -0.09375, 0.40625, 0.90625, 0.90625, 0.90625,
    -0.09375, 0.09375, -0.03125, -0.03125, 0.03125, 0.03125, 0.09375, -0.03125,
    -0.03125, -0.03125, 0.03125, 0.03125, 0.03125, 0.03125, -0.03125, 0.09375,
    1.0, 0.5625, 0.125, 0.5625, 0.5625, 1.0, 0.5625, 0.125,
    1.0, 0.125, 0.5625, -0.3125, -0.3125, 1.0, 0.5625, 0.125,
    -0.25, -0.25, -0.25, -0.25, -0.25, -0.25, -0.25, -0.25,
    -0.25, -0.25, -0.25, -0.25, -0.25, -0.25, -0.25, -0.25,
    0.8125, -0.1875, 0.8125, -0.1875, 0.8125, 0.8125, 0.8125, 0.8125,
    0.8125, -0.1875, 0.8125, 0.8125, 0.3125, 0.3125, -0.1875, -0.1875,
    0.6875, -0.0625, -0.4375, 0.3125, 0.6875, -0.0625, -0.0625, 0.3125,
    0.3125, 0.6875, 0.6875, -0.0625, 0.3125, -0.0625, -0.4375, 0.3125,
    -0.28125, 0.09375, -0.09375, -0.09375, -0.28125, -0.09375, -0.09375, 0.09375,
    0.09375, -0.28125, 0.09375, -0.28125, 0.28125, -0.09375, -0.09375, 0.09375,
    2.5625, 0.8125, 2.5625, 2.5625, -0.0625, 2.5625, -0.0625, 1.6875,
    -0.0625, -0.0625, 0.8125, 0.8125, 0.8125, -0.0625, 1.6875, 2.5625,
    0.09375, -0.09375, -0.09375, -0.28125, -0.28125, -0.28125, 0.09375, 0.09375,
    -0.28125, 0.09375, 0.09375, 0.09375, 0.28125, 0.28125, 0.28125, -0.28125,
    -0.21875, -0.21875, -0.21875, -0.21875, -0.21875, -0.21875, -0.21875, -0.21875,
    -0.21875, -0.21875, -0.21875, -0.21875, -0.21875, -0.21875, -0.21875, -0.21875,
    1.65625, 0.53125, 1.65625, 1.65625, 1.09375, 1.65625, 0.53125, 1.65625,
    -0.03125, -0.03125, 1.09375, 1.65625, 0.53125, 0.53125, 1.65625, 1.65625,
    ];

#[test]
fn q2_k_block_of_the_published_format() {
    let qs: Vec<u32> = ANCHOR_QS
        .chunks(4)
        .map(|b| u32::from_le_bytes([b[0], b[1], b[2], b[3]]))
        .collect();
    let mut out = fs(&[9.0; 257]);
    iron_gguf_dequant_q2_k(&qs, &ANCHOR_SCALES, &fs(&[0.0625]), &fs(&[0.03125]), &mut out, 256);
    assert_eq!(&out[..256], &fs(&ANCHOR_VALUES)[..]);
    assert_eq!(out[256], F(9.0));
}

#[test]
fn iq2_xxs_words_are_little_endian_and_skip_the_scales() {
    let raw: Vec<u8> = (0..132).map(|i| (i * 7 % 251) as u8).collect();
    let mut words = vec![0u32; 33];
    iron_gguf_iq2_xxs_extract_qs(&raw, &mut words, 2);
    for w in 0..32 {
        let at = w / 16 * 66 + 2 + w % 16 * 4;
        let want = u32::from_le_bytes([raw[at], raw[at + 1], raw[at + 2], raw[at + 3]]);
        assert_eq!(words[w], want);
    }
    assert_eq!(words[32], 0);
}

fn norm_case(rows: usize, n: usize, lsize: u32, x: &[f32]) {
    let w: Vec<f32> = (0..n).map(|i| 0.5 + (i % 7) as f32 * 0.1).collect();
    let b: Vec<f32> = (0..n).map(|i| (i % 5) as f32 * 0.2 - 0.3).collect();
    let eps = 1e-5f32;
    let mut want = Vec::new();
    for r in 0..rows {
        let row = &x[r * n..(r + 1) * n];
        let mean = row.iter().sum::<f32>() / n as f32;
        let var = row.iter().map(|v| (v - mean) * (v - mean)).sum::<f32>() / n as f32;
        want.extend((0..n).map(|i| (row[i] - mean) / (var + eps).sqrt() * w[i] + b[i]));
    }
    let mut out = fs(&vec![0.0; rows * n]);
    iron_layer_norm(
        &fs(x), &fs(&w), &fs(&b), &mut out, &[F(eps)], n as u32, rows as u32, lsize,
    );
    close(&out, &want, 2e-3);
}

#[test]
fn layer_norm_centres_and_scales_rows() {
    let x: Vec<f32> = (0..3 * 64).map(|i| ((i % 17) as f32 - 8.0) * 0.1).collect();
    norm_case(3, 64, 16, &x);
    norm_case(3, 61, 4, &x[..183]);
    norm_case(2, 5, 8, &x[..10]);
}

#[test]
fn layer_norm_of_constant_rows_is_the_bias() {
    norm_case(1, 32, 8, &[0.0; 32]);
    let x = fs(&[1e4; 32]);
    let mut out = fs(&[9.0; 32]);
    iron_layer_norm(&x, &fs(&[1.0; 32]), &fs(&[0.25; 32]), &mut out, &[F(1e-5)], 32, 1, 8);
    assert!(out.iter().all(|v| v.0 == 0.25));
}

#[allow(clippy::too_many_arguments)]
fn conv_case(c: usize, len: usize, k: usize, stride: usize, pad: usize, dilation: usize) {
    let out_len = (len + 2 * pad - dilation * (k - 1) - 1) / stride + 1;
    let x: Vec<f32> = (0..c * len).map(|i| ((i % 17) as f32 / 17.0 - 0.5) * 4.0).collect();
    let w: Vec<f32> = (0..c * k).map(|i| ((i % 7) as f32 / 7.0 - 0.5) * 2.0).collect();
    let b: Vec<f32> = (0..c).map(|i| (i % 5) as f32 * 0.1).collect();
    let mut want = Vec::new();
    for ch in 0..c {
        for op in 0..out_len {
            let mut acc = b[ch];
            for kx in 0..k {
                let at = (op * stride + kx * dilation) as i64 - pad as i64;
                if at >= 0 && (at as usize) < len {
                    acc += x[ch * len + at as usize] * w[ch * k + kx];
                }
            }
            want.push(acc);
        }
    }
    let mut out = fs(&vec![0.0; c * out_len]);
    iron_depthwise_conv1d(
        &fs(&x), &fs(&w), &fs(&b), &mut out, c as u32, len as u32, out_len as u32, k as u32,
        stride as u32, pad as u32, dilation as u32,
    );
    close(&out, &want, 1e-5);
}

#[test]
fn depthwise_convolution_pads_strides_and_dilates() {
    conv_case(4, 32, 15, 1, 7, 1);
    conv_case(3, 20, 3, 2, 1, 1);
    conv_case(2, 24, 5, 1, 4, 2);
    conv_case(2, 10, 1, 1, 0, 1);
}

#[test]
fn mhc_collapses_and_expands() {
    let (hidden, n, tokens) = (6usize, 4usize, 3usize);
    let state: Vec<f32> = (0..tokens * n * hidden).map(|i| (i % 11) as f32 * 0.25 - 1.0).collect();
    let pre: Vec<f32> = (0..tokens * n).map(|i| (i as f32 - 4.0) * 0.25).collect();
    let mut want = vec![0.0; tokens * hidden];
    for t in 0..tokens {
        for d in 0..hidden {
            for c in 0..n {
                want[t * hidden + d] += pre[t * n + c] * state[(t * n + c) * hidden + d];
            }
        }
    }
    let mut out = fs(&vec![0.0; tokens * hidden]);
    iron_mhc_collapse(&fs(&state), &fs(&pre), &mut out, 6, 4, 3);
    close(&out, &want, 1e-6);
    let block: Vec<f32> = (0..tokens * hidden).map(|i| i as f32 * 0.125).collect();
    let comb: Vec<f32> = (0..tokens * n * n).map(|i| (i % 9) as f32 * 0.125).collect();
    let mut expanded = vec![0.0; tokens * n * hidden];
    for t in 0..tokens {
        for dst in 0..n {
            for d in 0..hidden {
                let mut acc = block[t * hidden + d] * pre[t * n + dst];
                for src in 0..n {
                    acc += comb[(t * n + dst) * n + src] * state[(t * n + src) * hidden + d];
                }
                expanded[(t * n + dst) * hidden + d] = acc;
            }
        }
    }
    let mut new = fs(&vec![0.0; tokens * n * hidden]);
    iron_mhc_expand(&fs(&block), &fs(&pre), &fs(&comb), &fs(&state), &mut new, 6, 4, 3);
    close(&new, &expanded, 1e-6);
}
