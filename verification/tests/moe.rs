//! Expert products, routing and combination in single precision.
use wh_iron_std::moe::moe_bgemm_iq2xxs_view::iron_moe_bgemm_iq2xxs_view;
use wh_iron_std::moe::moe_bgemm_iq2xxs_view_u16_bm64::iron_moe_bgemm_iq2xxs_view_u16_bm64;
use wh_iron_std::moe::moe_down_weighted_sum_f16::iron_moe_down_weighted_sum_6;
use wh_iron_std::moe::moe_gather_q4::{
    iron_moe_gather_q4_down, iron_moe_gather_q4_down_accum, iron_moe_gather_q4_relu2,
    iron_moe_weighted_sum,
};
use wh_iron_std::moe::moe_gather_qmm_expert_mpp::iron_nvfp4_moe_gather_qmm_expert_mpp;
use wh_iron_std::moe::moe_gather_qmm_expert_mpp_bn64wn1::iron_nvfp4_moe_gather_qmm_expert_mpp_bn64wn1;
use wh_iron_std::moe::moe_gemv_ws_iq2xxs::iron_moe_gemv_ws_iq2xxs;
use wh_iron_std::moe::moe_mpp_bm16_bk32_block_scaled;
use wh_iron_std::moe::moe_mpp_bm64_bk64_nvfp4::iron_nvfp4_moe_gather_qmm_bm64_bk64_mpp;
use wh_iron_std::moe::moe_mpp_expert_grid::iron_moe_gather_qmm_mma_eg;
use wh_iron_std::moe::moe_mpp_tileplan::{
    build_tile_plan, iron_moe_gather_qmm_mma_int4_bm16_mpp_tileplan,
};
use wh_iron_std::moe::moe_router_topk::iron_moe_router_topk;
use wh_iron_std::moe::moe_router_topk_biased_rows_fused::iron_moe_router_topk_biased_rows_fused;
use wh_iron_std::moe::moe_sigmoid_bias::iron_moe_sigmoid_bias;
use wh_iron_std::moe::moe_unpermute_tail::iron_moe_unpermute_tail;
use wh_iron_std::primitives::iron_decode_e4m3;
use wh_iron_std::quant::gguf_iq2_xxs_extract_qs::iron_gguf_iq2_xxs_extract_qs;
use wh_iron_std::scalar::{Scalar, Storage};

/// Single-precision registers.
#[derive(Clone, Copy, Debug, PartialEq)]
struct F(f32);

impl Scalar for F {
    fn dyadic(m: i64, e: i32) -> F {
        F((m as f64 * 2f64.powi(e)) as f32)
    }

    fn plus(self, other: F) -> F {
        F(self.0 + other.0)
    }

    fn minus(self, other: F) -> F {
        F(self.0 - other.0)
    }

    fn times(self, other: F) -> F {
        F(self.0 * other.0)
    }

    fn over(self, other: F) -> F {
        F(self.0 / other.0)
    }

    fn negated(self) -> F {
        F(-self.0)
    }

    fn above(self, other: F) -> bool {
        self.0 > other.0
    }

    fn equals(self, other: F) -> bool {
        self.0 == other.0
    }

    fn lowest() -> F {
        F(f32::NEG_INFINITY)
    }

    fn exp(self) -> F {
        F(self.0.exp())
    }

    fn rsqrt(self) -> F {
        F(1.0 / self.0.sqrt())
    }

    fn lanes_sum(parts: &Vec<F>) -> F {
        F(parts.iter().map(|p| p.0).sum())
    }

    fn mma(acc: F, a: &Vec<F>, b: &Vec<F>) -> F {
        F(a.iter().zip(b).fold(acc.0, |s, (x, y)| s + x.0 * y.0))
    }
}

/// Half-precision buffers.
#[derive(Clone, Copy, Debug, PartialEq)]
struct H(half::f16);

impl Storage<F> for H {
    fn widen(self) -> F {
        F(self.0.to_f32())
    }

    fn narrow(a: F) -> H {
        H(half::f16::from_f32(a.0))
    }
}

fn fs(v: &[f32]) -> Vec<F> {
    v.iter().map(|&x| F(x)).collect()
}

fn hs(v: &[f32]) -> Vec<H> {
    v.iter().map(|&x| H(half::f16::from_f32(x))).collect()
}

fn close(got: &[F], want: &[f32], tol: f32) {
    assert_eq!(got.len(), want.len());
    for (i, (g, w)) in got.iter().zip(want).enumerate() {
        assert!((g.0 - w).abs() <= tol * (1.0 + w.abs()), "element {}: {} against {}", i, g.0, w);
    }
}

const NO_EXPERT: u32 = u32::MAX;

fn ramp(n: usize, period: usize, step: f32, shift: f32) -> Vec<f32> {
    (0..n).map(|i| ((i * 7 + 3) % period) as f32 * step - shift).collect()
}

/// `out[r] = x[row(r)] . W[ids[r]]` over `experts` stacked `n x k` matrices; 9 elsewhere.
fn gathered(w: &[f32], x: &[f32], ids: &[u32], n: usize, k: usize) -> Vec<f32> {
    let mut out = Vec::new();
    for (r, &e) in ids.iter().enumerate() {
        for c in 0..n {
            out.push(if e == NO_EXPERT {
                9.0
            } else {
                (0..k).map(|j| w[(e as usize * n + c) * k + j] * x[r * k + j]).sum()
            });
        }
    }
    out
}

const E2M1: [f32; 8] = [0.0, 0.5, 1.0, 1.5, 2.0, 3.0, 4.0, 6.0];

struct Fp4 {
    words: Vec<u32>,
    scales: Vec<u8>,
    w: Vec<f32>,
}

/// `rows x k` E2M1 codes under one E4M3 scale per 16 columns and the factor `global`.
fn fp4(rows: usize, k: usize, global: f32) -> Fp4 {
    let codes: Vec<u32> = (0..rows * k).map(|i| ((i * 5 + i / 16) % 16) as u32).collect();
    let scales: Vec<u8> = (0..rows * k / 16).map(|i| 0x28 + (i % 17) as u8).collect();
    let words = codes
        .chunks(8)
        .map(|c| c.iter().enumerate().fold(0u32, |w, (i, &v)| w | v << (4 * i)))
        .collect();
    let w = (0..rows * k)
        .map(|i| {
            let v = E2M1[(codes[i] & 7) as usize];
            let v = if codes[i] & 8 != 0 { -v } else { v };
            v * iron_decode_e4m3::<F>(scales[i / 16] as u32).0 * global
        })
        .collect();
    Fp4 { words, scales, w }
}

#[test]
fn nvfp4_tiles_multiply_by_the_indexed_experts() {
    let (m, n, k) = (70usize, 64usize, 64usize);
    let a = fp4(3 * n, k, 0.25);
    let x = ramp(m * k, 13, 0.0625, 0.4);
    let ids: Vec<u32> = (0..m)
        .map(|r| if r % 23 == 22 { NO_EXPERT } else { (r / 9 % 3) as u32 })
        .collect();
    let want = gathered(&a.w, &x, &ids, n, k);
    let mut small = fs(&vec![9.0; m * n + 1]);
    moe_mpp_bm16_bk32_block_scaled::iron::<F, F, F>(
        &fs(&x), &a.words, &a.scales, &ids, &mut small, 70, 64, 64, 16, F(0.25),
    );
    close(&small[..m * n], &want, 1e-4);
    let mut large = fs(&vec![9.0; m * n + 1]);
    iron_nvfp4_moe_gather_qmm_bm64_bk64_mpp::<F, F, F>(
        &fs(&x), &a.words, &a.scales, &ids, &mut large, 70, 64, 64, 16, F(0.25),
    );
    assert_eq!(small, large);
}

#[test]
fn expert_grids_multiply_sorted_rows() {
    let (m, n, k) = (75usize, 64usize, 64usize);
    let a = fp4(4 * n, k, 0.5);
    let x = ramp(m * k, 13, 0.0625, 0.4);
    let ids: Vec<u32> = (0..m).map(|r| if r < 1 { 0 } else if r < 70 { 2 } else { 3 }).collect();
    let want = gathered(&a.w, &x, &ids, n, k);
    let mut one = fs(&vec![9.0; m * n]);
    iron_nvfp4_moe_gather_qmm_expert_mpp::<F, F, F, F>(
        &fs(&x), &a.words, &a.scales, &ids, &mut one, 75, 64, 64, 16, F(0.5), 4,
    );
    close(&one, &want, 1e-4);
    let mut two = fs(&vec![9.0; m * n]);
    iron_nvfp4_moe_gather_qmm_expert_mpp_bn64wn1::<F, F, F, F>(
        &fs(&x), &a.words, &a.scales, &ids, &mut two, 75, 64, 64, 16, F(0.5), 4,
    );
    assert_eq!(one, two);
    let mut cut = fs(&vec![9.0; m * n]);
    iron_nvfp4_moe_gather_qmm_expert_mpp::<F, F, F, F>(
        &fs(&x), &a.words, &a.scales, &ids, &mut cut, 75, 64, 64, 16, F(0.5), 3,
    );
    assert_eq!(&cut[..70 * n], &one[..70 * n]);
    assert!(cut[70 * n..].iter().all(|&v| v == F(9.0)));
}

struct Affine {
    words: Vec<u32>,
    scales: Vec<f32>,
    biases: Vec<f32>,
    w: Vec<f32>,
}

fn affine(rows: usize, k: usize, bits: usize, group: usize) -> Affine {
    let codes: Vec<u32> =
        (0..rows * k).map(|i| ((i * 13 + i / 9) % (1 << bits)) as u32).collect();
    let words = codes
        .chunks(32 / bits)
        .map(|c| c.iter().enumerate().fold(0u32, |w, (i, &v)| w | v << (bits * i)))
        .collect();
    let scales = ramp(rows * k / group, 11, 0.03125, 0.125);
    let biases = ramp(rows * k / group, 5, 0.125, 0.25);
    let w = (0..rows * k)
        .map(|i| scales[i / group] * codes[i] as f32 + biases[i / group])
        .collect();
    Affine { words, scales, biases, w }
}

#[test]
fn affine_expert_grid_takes_half_steps() {
    for (bits, k) in [(2u32, 64usize), (4, 48), (8, 16)] {
        let (m, n) = (40usize, 32usize);
        let a = affine(3 * n, k, bits as usize, 16);
        let x = ramp(m * k, 13, 0.0625, 0.4);
        let ids: Vec<u32> = (0..m).map(|r| if r < 3 { 0 } else { 2 }).collect();
        let mut out = fs(&vec![9.0; m * n]);
        iron_moe_gather_qmm_mma_eg::<F, F, F>(
            bits, &fs(&x), &a.words, &fs(&a.scales), &fs(&a.biases), &ids, &mut out, m as u32,
            n as u32, k as u32, 16, 3,
        );
        close(&out, &gathered(&a.w, &x, &ids, n, k), 1e-4);
    }
}

#[test]
fn planned_tiles_read_their_source_rows() {
    let (n, k) = (32usize, 64usize);
    let counts = [1usize, 0, 37, 5];
    let rows: usize = counts.iter().sum();
    let a = affine(4 * n, k, 4, 32);
    let x = ramp(20 * k, 13, 0.0625, 0.4);
    let x_rows: Vec<u32> = (0..rows).map(|r| (r * 7 % 20) as u32).collect();
    let (te, trs, trc) = build_tile_plan(&counts);
    let mut out = fs(&vec![9.0; rows * n]);
    iron_moe_gather_qmm_mma_int4_bm16_mpp_tileplan::<F, F, F>(
        &fs(&x), &a.words, &fs(&a.scales), &fs(&a.biases), &te, &trs, &trc, &x_rows, &mut out, 32,
        64, 32, te.len() as u32,
    );
    let mut ids = Vec::new();
    for (e, &c) in counts.iter().enumerate() {
        for _ in 0..c {
            ids.push(e as u32);
        }
    }
    let picked: Vec<f32> =
        x_rows.iter().flat_map(|&r| x[r as usize * k..(r as usize + 1) * k].to_vec()).collect();
    close(&out, &gathered(&a.w, &picked, &ids, n, k), 1e-4);
    let mut first = fs(&vec![9.0; rows * n]);
    iron_moe_gather_qmm_mma_int4_bm16_mpp_tileplan::<F, F, F>(
        &fs(&x), &a.words, &fs(&a.scales), &fs(&a.biases), &te, &trs, &trc, &x_rows, &mut first,
        32, 64, 32, 1,
    );
    assert_eq!(&first[..n], &out[..n]);
    assert!(first[n..].iter().all(|&v| v == F(9.0)));
}

struct Iq2 {
    bytes: Vec<u8>,
    d: Vec<f32>,
    grid: Vec<u8>,
    signs: Vec<u8>,
    w: Vec<f32>,
}

fn iq2(blocks: usize) -> Iq2 {
    let grid: Vec<u8> = (0..2048).map(|i| [8u8, 25, 43][(i * 5 + i / 8) % 3]).collect();
    let signs: Vec<u8> = (0..128usize)
        .map(|i| i as u8 | (((i.count_ones() & 1) as u8) << 7))
        .collect();
    let (mut bytes, mut d, mut w) = (Vec::new(), Vec::new(), Vec::new());
    for b in 0..blocks {
        let sign = if b % 2 == 0 { 1.0 } else { -1.0 };
        let scale = half::f16::from_f32(sign * 0.0078125 * (1 + b % 5) as f32);
        bytes.extend(scale.to_le_bytes());
        d.push(scale.to_f32());
        for g in 0..8 {
            let keys: Vec<usize> = (0..4).map(|o| (b * 31 + g * 17 + o * 71) % 256).collect();
            let marks: Vec<usize> = (0..4).map(|o| (b * 13 + g * 29 + o * 37) % 128).collect();
            let s = (b + g * 3) % 16;
            let aux = (0..4).fold((s as u32) << 28, |v, o| v | (marks[o] as u32) << (7 * o));
            bytes.extend(keys.iter().map(|&q| q as u8));
            bytes.extend(aux.to_le_bytes());
            let db = scale.to_f32() * (0.5 + s as f32) * 0.25;
            for o in 0..4 {
                for j in 0..8 {
                    let sign = if signs[marks[o]] >> j & 1 != 0 { -1.0 } else { 1.0 };
                    w.push(db * sign * grid[keys[o] * 8 + j] as f32);
                }
            }
        }
    }
    Iq2 { bytes, d, grid, signs, w }
}

#[test]
fn iq2_xxs_products_from_raw_blocks() {
    for n in [64usize, 40] {
        let (m, k) = (20usize, 256usize);
        let a = iq2(2 * n * k / 256);
        let x = ramp(m * k, 13, 0.0625, 0.4);
        let ids: Vec<u32> = (0..m)
            .map(|r| if r == 5 { NO_EXPERT } else { (r / 7 % 2) as u32 })
            .collect();
        let want = gathered(&a.w, &x, &ids, n, k);
        let stride = (n * k / 256 * 66) as u32;
        let mut raw = vec![0u8; 4];
        raw.extend(&a.bytes);
        let mut out = fs(&vec![9.0; m * n]);
        iron_moe_bgemm_iq2xxs_view::<F, F, F>(
            &fs(&x), &raw, &a.grid, &a.signs, &ids, &mut out, 20, n as u32, 256, 4, stride,
        );
        close(&out, &want, 1e-3);
        let words: Vec<u16> = raw.chunks(2).map(|b| u16::from_le_bytes([b[0], b[1]])).collect();
        let halves: Vec<H> = words.iter().map(|&v| H(half::f16::from_bits(v))).collect();
        let mut large = fs(&vec![9.0; m * n]);
        iron_moe_bgemm_iq2xxs_view_u16_bm64::<F, F, H, F>(
            &fs(&x), &words, &halves, &a.grid, &a.signs, &ids, &mut large, 20, n as u32, 256, 4,
            stride,
        );
        close(&large, &want, 1e-3);
    }
}

#[test]
fn iq2_xxs_gemv_reuses_rows_across_tiles() {
    let (m, n, k) = (7usize, 3usize, 512usize);
    let blocks = 3 * n * k / 256;
    let a = iq2(blocks);
    let x = ramp(m * k, 13, 0.0625, 0.4);
    let ids = [0u32, 0, 2, 2, 1, 2, 2];
    let mut qs = vec![0u32; blocks * 16];
    iron_gguf_iq2_xxs_extract_qs(&a.bytes, &mut qs, blocks as u32);
    let want = gathered(&a.w, &x, &ids, n, k);
    for tile in [1u32, 2, 4, 16] {
        let mut out = fs(&vec![0.0; m * n]);
        iron_moe_gemv_ws_iq2xxs(
            &fs(&x), &qs, &fs(&a.d), &ids, &a.grid, &a.signs, &mut out, 512, 3, 7, tile,
        );
        close(&out, &want, 1e-3);
    }
}

struct Q4 {
    qs: Vec<u32>,
    d: Vec<f32>,
    w: Vec<f32>,
}

fn q4(rows: usize, cols: usize) -> Q4 {
    let q: Vec<i32> = (0..rows * cols).map(|i| (i * 7 + i / 32) as i32 % 16 - 8).collect();
    let d = ramp(rows * cols / 32, 9, 0.03125, 0.0625);
    let qs = q
        .chunks(8)
        .map(|c| c.iter().enumerate().fold(0u32, |w, (i, &v)| w | (v as u32 & 15) << (4 * i)))
        .collect();
    let w = (0..rows * cols).map(|i| d[i / 32] * q[i] as f32).collect();
    Q4 { qs, d, w }
}

#[test]
fn gathered_q4_projections() {
    let (experts, hid, inter, top) = (5usize, 6usize, 64usize, 3usize);
    let idx = [4u32, 0, 2];
    let up = q4(experts * inter, 96);
    let x = ramp(96, 13, 0.0625, 0.4);
    let mut h = fs(&vec![0.0; top * inter]);
    iron_moe_gather_q4_relu2::<F, F, F>(
        &up.qs, &fs(&up.d), &fs(&x), &idx, &mut h, 96, inter as u32, 4, 3,
    );
    let mut want = Vec::new();
    for &e in &idx {
        for r in 0..inter {
            let row = e as usize * inter + r;
            let v: f32 = (0..96).map(|j| up.w[row * 96 + j] * x[j]).sum();
            want.push(v.max(0.0) * v.max(0.0));
        }
    }
    close(&h, &want, 1e-3);

    let down = q4(experts * hid, inter);
    let y = ramp(top * inter, 11, 0.125, 0.5);
    let mut each = fs(&vec![0.0; top * hid]);
    iron_moe_gather_q4_down::<F, F, F>(
        &down.qs, &fs(&down.d), &fs(&y), &idx, &mut each, inter as u32, hid as u32, 2, 3,
    );
    let mut dots = Vec::new();
    for (s, &e) in idx.iter().enumerate() {
        for r in 0..hid {
            let row = e as usize * hid + r;
            dots.push((0..inter).map(|j| down.w[row * inter + j] * y[s * inter + j]).sum::<f32>());
        }
    }
    close(&each, &dots, 1e-4);

    let wts = [0.5f32, -1.0, 0.25];
    let before = ramp(hid, 5, 0.5, 1.0);
    let sums: Vec<f32> = (0..hid)
        .map(|r| before[r] + (0..top).map(|s| wts[s] * dots[s * hid + r]).sum::<f32>())
        .collect();
    let mut parted = fs(&before);
    iron_moe_weighted_sum(&each, &fs(&wts), &mut parted, hid as u32, 3);
    close(&parted, &sums, 1e-4);
    let mut fused = fs(&before);
    iron_moe_gather_q4_down_accum::<F, F, F>(
        &down.qs, &fs(&down.d), &fs(&y), &idx, &fs(&wts), &mut fused, inter as u32, hid as u32, 3,
    );
    close(&fused, &sums, 1e-4);
}

#[test]
fn six_experts_are_folded_in_order() {
    let (m, k) = (4usize, 96usize);
    let downs: Vec<Vec<f32>> = (0..6).map(|s| ramp(m * k, 13 + s, 0.0625, 0.4)).collect();
    let inners: Vec<Vec<f32>> = (0..6).map(|s| ramp(k, 7 + s, 0.125, 0.3)).collect();
    let w = [0.3f32, 0.2, -0.1, 0.25, 0.15, 0.5];
    let before = ramp(m, 5, 0.5, 1.0);
    let want: Vec<f32> = (0..m)
        .map(|r| {
            (0..6).fold(before[r], |acc, s| {
                let dot: f32 = (0..k).map(|j| downs[s][r * k + j] * inners[s][j]).sum();
                acc + w[s] * dot
            })
        })
        .collect();
    let (d, i): (Vec<Vec<F>>, Vec<Vec<F>>) =
        (downs.iter().map(|v| fs(v)).collect(), inners.iter().map(|v| fs(v)).collect());
    let mut acc = fs(&before);
    iron_moe_down_weighted_sum_6(
        &d[0], &i[0], &d[1], &i[1], &d[2], &i[2], &d[3], &i[3], &d[4], &i[4], &d[5], &i[5],
        &fs(&w), &mut acc, k as u32, m as u32, 64,
    );
    close(&acc, &want, 1e-4);
}

fn rounded(v: f32) -> f32 {
    half::f16::from_f32(v).to_f32()
}

#[test]
fn unpermute_tail_rounds_after_every_stage() {
    let (tokens, k, hidden) = (4usize, 2usize, 130usize);
    let outputs: Vec<f32> =
        (0..8 * hidden).map(|i| rounded(((i as f32) * 0.011).sin())).collect();
    let perm = [0u32, 5, 2, 7, 4, 1, 6, 3];
    let weights: Vec<f32> = (0..8).map(|i| rounded(0.3 + 0.1 * i as f32)).collect();
    let shared: Vec<f32> =
        (0..tokens * hidden).map(|i| rounded(((i as f32) * 0.017).cos() * 0.5)).collect();
    let residual: Vec<f32> =
        (0..tokens * hidden).map(|i| rounded(((i as f32) * 0.023).sin() * 2.0)).collect();
    for has_shared in [0u32, 1] {
        let mut want = Vec::new();
        for t in 0..tokens {
            for h in 0..hidden {
                let mut acc = 0.0f32;
                for j in 0..k {
                    acc += weights[t * k + j] * outputs[perm[t * k + j] as usize * hidden + h];
                }
                let mut v = rounded(acc);
                if has_shared == 1 {
                    v = rounded(v + shared[t * hidden + h]);
                }
                want.push(rounded(v + residual[t * hidden + h]));
            }
        }
        let mut out = hs(&vec![0.0; tokens * hidden]);
        let unread = if has_shared == 1 { hs(&shared) } else { vec![] };
        iron_moe_unpermute_tail::<F, H>(
            &hs(&outputs), &perm, &hs(&weights), &unread, &hs(&residual), &mut out,
            hidden as u32, k as u32, has_shared, tokens as u32,
        );
        assert_eq!(out, hs(&want));
    }
}

fn sigmoid(x: f32) -> f32 {
    1.0 / (1.0 + (-x).exp())
}

#[test]
fn sigmoid_scores_with_and_without_bias() {
    let n = 192usize;
    let logits: Vec<f32> = (0..n).map(|i| (i % 31) as f32 * 0.1 - 1.5).collect();
    let bias: Vec<f32> = (0..n).map(|i| (i % 7) as f32 * 0.05 - 0.15).collect();
    let (mut u, mut b) = (fs(&vec![5.0; n + 1]), fs(&vec![5.0; n]));
    iron_moe_sigmoid_bias(&fs(&logits), &fs(&bias), &mut u, &mut b, n as u32);
    let want: Vec<f32> = logits.iter().map(|&l| sigmoid(l)).collect();
    close(&u[..n], &want, 1e-6);
    assert_eq!(u[n], F(5.0));
    let biased: Vec<f32> = want.iter().zip(&bias).map(|(s, b)| s + b).collect();
    close(&b, &biased, 1e-6);
}

/// The `k` strongest of `row`, ties by index.
fn strongest(row: &[f32], k: usize) -> Vec<usize> {
    let mut order: Vec<usize> = (0..row.len()).collect();
    order.sort_by(|&a, &b| row[b].partial_cmp(&row[a]).unwrap().then(a.cmp(&b)));
    order[..k].to_vec()
}

#[test]
fn router_selects_and_weighs_the_strongest() {
    let (rows, n, k) = (4usize, 70usize, 4usize);
    let logits: Vec<f32> =
        (0..rows * n).map(|i| ((i * 5 + i / n * 3) % 37) as f32 * 0.25).collect();
    for norm in [0u32, 1] {
        let (mut idx, mut w) = (vec![0u32; rows * k], fs(&vec![0.0; rows * k]));
        iron_moe_router_topk(&fs(&logits), &mut idx, &mut w, n as u32, k as u32, norm, 4);
        for r in 0..rows {
            let row = &logits[r * n..(r + 1) * n];
            let chosen = strongest(row, k);
            let max = row[chosen[0]];
            let all: f32 = row.iter().map(|v| (v - max).exp()).sum();
            let own: f32 = chosen.iter().map(|&e| (row[e] - max).exp()).sum();
            let want: Vec<f32> = chosen
                .iter()
                .map(|&e| (row[e] - max).exp() / if norm == 1 { own } else { all })
                .collect();
            let ids: Vec<usize> = idx[r * k..(r + 1) * k].iter().map(|&e| e as usize).collect();
            assert_eq!(ids, chosen);
            close(&w[r * k..(r + 1) * k], &want, 1e-5);
            let sum: f32 = w[r * k..(r + 1) * k].iter().map(|v| v.0).sum();
            assert!(norm == 0 || (sum - 1.0).abs() < 1e-5);
        }
    }
}

#[test]
fn router_weights_compare() {
    let n = 12usize;
    let logits: Vec<f32> = (0..n).map(|i| ((i * 7) % 12) as f32 * 0.5 - 2.0).collect();
    for k in [1usize, 5, 12] {
        let (mut idx, mut raw) = (vec![0u32; k], fs(&vec![0.0; k]));
        let mut own = raw.clone();
        iron_moe_router_topk(&fs(&logits), &mut idx, &mut raw, n as u32, k as u32, 0, 1);
        iron_moe_router_topk(&fs(&logits), &mut idx, &mut own, n as u32, k as u32, 1, 1);
        assert!(raw.iter().map(|w| w.0).sum::<f32>() <= 1.0 + 1e-6);
        for i in 0..k {
            assert!(raw[i].0 <= own[i].0 + 1e-6);
            assert!(k < n || (raw[i].0 - own[i].0).abs() <= 1e-6);
            assert!(i == 0 || raw[i].0 <= raw[i - 1].0 && own[i].0 <= own[i - 1].0);
        }
    }
}

#[test]
fn router_passes_over_what_is_not_a_number() {
    let row = [f32::NAN, 1.0, f32::NAN, f32::NEG_INFINITY];
    let (mut idx, mut w) = (vec![9u32; 3], fs(&[0.0; 3]));
    iron_moe_router_topk(&fs(&row), &mut idx, &mut w, 4, 3, 1, 1);
    assert_eq!(idx, vec![1, 0, 0]);
    assert_eq!(w, fs(&[1.0, 0.0, 0.0]));
}

fn biased_case(rows: usize, n: usize, k: usize, logits: &[f32]) {
    let bias: Vec<f32> = (0..n).map(|i| rounded((i % 7) as f32 * 0.05 - 0.15)).collect();
    let logits: Vec<f32> = logits.iter().map(|&v| rounded(v)).collect();
    let (mut idx, mut w) = (vec![0u32; rows * k], hs(&vec![0.0; rows * k]));
    iron_moe_router_topk_biased_rows_fused::<F, H>(
        &hs(&logits), &hs(&bias), &mut idx, &mut w, n as u32, k as u32, rows as u32,
    );
    for r in 0..rows {
        let unbiased: Vec<f32> =
            logits[r * n..(r + 1) * n].iter().map(|&x| rounded(sigmoid(x))).collect();
        let biased: Vec<f32> =
            unbiased.iter().zip(&bias).map(|(u, b)| rounded(u + b)).collect();
        let chosen = strongest(&biased, k);
        let sum: f32 = chosen.iter().map(|&e| unbiased[e]).sum();
        for (i, &e) in chosen.iter().enumerate() {
            assert_eq!(idx[r * k + i] as usize, e);
            assert_eq!(w[r * k + i], H(half::f16::from_f32(unbiased[e] / sum)));
        }
    }
}

#[test]
fn biased_router_breaks_ties_by_index() {
    let uniform: Vec<f32> =
        (0..4 * 256).map(|i| ((i * 37 + 11) % 251) as f32 * 0.05 - 6.0).collect();
    biased_case(4, 256, 8, &uniform);
    let zipf: Vec<f32> = (0..4 * 256).map(|i| 10.0 / ((i % 256) as f32 + 1.0) - 4.0).collect();
    biased_case(4, 256, 8, &zipf);
    let tied: Vec<f32> = (0..2 * 32)
        .map(|i| {
            let e = i % 32;
            if (4..12).contains(&e) {
                2.0
            } else if e < 4 {
                5.0 - e as f32 * 0.1
            } else {
                -2.0 - e as f32 * 0.01
            }
        })
        .collect();
    biased_case(2, 32, 6, &tied);
    biased_case(1, 40, 6, &uniform[..40]);
}

#[test]
fn biased_router_goes_by_the_sigmoid_scores() {
    let n = 40usize;
    let logits: Vec<f32> = (0..n).map(|i| ((i * 37 + 11) % 23) as f32 * 0.31 - 3.0).collect();
    let bias: Vec<f32> = (0..n).map(|i| (i % 7) as f32 * 0.05 - 0.15).collect();
    let (mut unbiased, mut biased) = (fs(&vec![0.0; n]), fs(&vec![0.0; n]));
    iron_moe_sigmoid_bias(&fs(&logits), &fs(&bias), &mut unbiased, &mut biased, n as u32);
    let (mut idx, mut w) = (vec![0u32; 6], fs(&[0.0; 6]));
    iron_moe_router_topk_biased_rows_fused::<F, F>(
        &fs(&logits), &fs(&bias), &mut idx, &mut w, n as u32, 6, 1,
    );
    let scores: Vec<f32> = biased.iter().map(|s| s.0).collect();
    let chosen = strongest(&scores, 6);
    assert_eq!(idx.iter().map(|&e| e as usize).collect::<Vec<_>>(), chosen);
    let own: Vec<f32> = chosen.iter().map(|&e| unbiased[e].0).collect();
    let sum: f32 = own.iter().sum();
    close(&w, &own.iter().map(|s| s / sum).collect::<Vec<_>>(), 1e-6);
}
