//! Kernels of different shape give the same outputs where arithmetic is exact.
use wh_iron_std::gemm::batched_qkv_block_scaled_qmm;
use wh_iron_std::gemm::block_scaled_matmul;
use wh_iron_std::gemm::block_scaled_matmul::{Codes, Scales};
use wh_iron_std::gemm::dequant_gemv::iron_dequant_gemv;
use wh_iron_std::gemm::dequant_gemv_fast::iron_dequant_gemv_int4_fast;
use wh_iron_std::gemm::gemm_q8::iron_gemm_q8;
use wh_iron_std::gemm::gemv_quantized::iron_gemv_q8;
use wh_iron_std::moe::moe_bgemm_iq2xxs_view::iron_moe_bgemm_iq2xxs_view;
use wh_iron_std::moe::moe_gather_qmm_expert_mpp::iron_nvfp4_moe_gather_qmm_expert_mpp;
use wh_iron_std::moe::moe_gather_qmm_expert_mpp_bn64wn1::iron_nvfp4_moe_gather_qmm_expert_mpp_bn64wn1;
use wh_iron_std::moe::moe_gemv_ws_iq2xxs::iron_moe_gemv_ws_iq2xxs;
use wh_iron_std::moe::moe_mpp_bm16_bk32_block_scaled;
use wh_iron_std::moe::moe_mpp_bm64_bk64_nvfp4::iron_nvfp4_moe_gather_qmm_bm64_bk64_mpp;
use wh_iron_std::moe::moe_mpp_expert_grid::iron_moe_gather_qmm_mma_eg;
use wh_iron_std::moe::moe_router_topk::iron_moe_router_topk;
use wh_iron_std::norm::layer_norm::iron_layer_norm;
use wh_iron_std::quant::gguf_iq2_xxs_extract_qs::iron_gguf_iq2_xxs_extract_qs;
use wh_iron_std::scalar::Scalar;
use wh_iron_std::trit::Trit;

fn trits(n: usize, seed: usize) -> Vec<Trit> {
    (0..n)
        .map(|i| [Trit::Zero, Trit::One, Trit::Two][(i * i + seed * i + i / 7 + seed) % 3])
        .collect()
}

fn words(n: usize, seed: u32) -> Vec<u32> {
    let mut state = seed;
    (0..n)
        .map(|_| {
            state = state.wrapping_mul(1664525).wrapping_add(1013904223);
            state ^ (state >> 15)
        })
        .collect()
}

fn mixed(out: &[Trit]) -> bool {
    [Trit::Zero, Trit::One, Trit::Two].iter().all(|t| out.contains(t))
}

#[test]
fn nvfp4_kernels_agree() {
    let (m, n, k) = (40usize, 64usize, 64usize);
    let w = words(2 * n * k / 8, 1);
    let scales: Vec<u8> = words(2 * n * k / 16, 2).iter().map(|v| *v as u8).collect();
    let x = trits(m * k, 1);
    let ids: Vec<u32> = (0..m).map(|r| u32::from(r >= 17)).collect();
    let mut outs = vec![vec![Trit::Zero; m * n]; 4];
    moe_mpp_bm16_bk32_block_scaled::iron::<Trit, Trit, Trit>(
        &x, &w, &scales, &ids, &mut outs[0], 40, 64, 64, 16, Trit::Two,
    );
    iron_nvfp4_moe_gather_qmm_bm64_bk64_mpp::<Trit, Trit, Trit>(
        &x, &w, &scales, &ids, &mut outs[1], 40, 64, 64, 16, Trit::Two,
    );
    iron_nvfp4_moe_gather_qmm_expert_mpp::<Trit, Trit, Trit, Trit>(
        &x, &w, &scales, &ids, &mut outs[2], 40, 64, 64, 16, Trit::Two, 2,
    );
    iron_nvfp4_moe_gather_qmm_expert_mpp_bn64wn1::<Trit, Trit, Trit, Trit>(
        &x, &w, &scales, &ids, &mut outs[3], 40, 64, 64, 16, Trit::Two, 2,
    );
    assert!(mixed(&outs[0]));
    assert!(outs.iter().all(|out| *out == outs[0]));

    let twice: Vec<Trit> = x.iter().map(|v| v.times(Trit::Two)).collect();
    let mut scaled = vec![Trit::Zero; m * n];
    moe_mpp_bm16_bk32_block_scaled::iron::<Trit, Trit, Trit>(
        &twice, &w, &scales, &ids, &mut scaled, 40, 64, 64, 16, Trit::Two,
    );
    assert!(scaled.iter().zip(&outs[0]).all(|(s, o)| *s == o.times(Trit::Two)));
}

#[test]
fn nvfp4_expert_rows_are_gemvs() {
    let (n, k) = (64usize, 64usize);
    let w = words(n * k / 8, 3);
    let scales: Vec<u8> = words(n * k / 16, 4).iter().map(|v| *v as u8).collect();
    let x = trits(k, 2);
    let (mut tiled, mut single) = (vec![Trit::Zero; n], vec![Trit::Zero; n]);
    moe_mpp_bm16_bk32_block_scaled::iron::<Trit, Trit, Trit>(
        &x, &w, &scales, &[0], &mut tiled, 1, 64, 64, 16, Trit::One,
    );
    block_scaled_matmul::iron::<Trit, Trit, Trit>(
        &Codes::E2m1(&w), &Scales::Micro(&scales, Trit::One), &x, &mut single, 64, 16, 64, 32,
    );
    assert!(mixed(&tiled));
    assert_eq!(tiled, single);
}

#[test]
fn projections_are_gemvs_of_their_tokens() {
    let (out, k, tokens) = (9usize, 40usize, 3usize);
    let w = words(out * k * 5 / 32 + out + 1, 5);
    let scales = trits(out * k / 8, 3);
    let x = trits(tokens * k, 4);
    let (codes, by) = (Codes::Int(&w, 5), Scales::<Trit, Trit>::Direct(&scales));
    let mut q = vec![Trit::Zero; tokens * out];
    let mut kb = vec![Trit::Zero; tokens * 2];
    let mut vb = vec![Trit::Zero; tokens * out];
    batched_qkv_block_scaled_qmm::iron::<Trit, Trit, Trit>(
        &x, &codes, &by, &codes, &by, &codes, &by, &mut q, &mut kb, &mut vb, 9, 2, 9, 40, 8, 3, 32,
    );
    assert_eq!(q, vb);
    for t in 0..tokens {
        let mut own = vec![Trit::Zero; out];
        block_scaled_matmul::iron::<Trit, Trit, Trit>(
            &codes, &by, &x[t * k..(t + 1) * k], &mut own, 40, 8, 9, 32,
        );
        assert_eq!(own, q[t * out..(t + 1) * out]);
        assert_eq!(own[..2], kb[t * 2..(t + 1) * 2]);
    }
}

#[test]
fn affine_expert_products_are_gemvs() {
    let (n, k) = (32usize, 512usize);
    for bits in [2u32, 4, 8] {
        let w = words(2 * n * k * bits as usize / 32, 6);
        let (scales, biases) = (trits(2 * n * k / 64, 5), trits(2 * n * k / 64, 6));
        let x = trits(k, 7);
        let (mut tiled, mut single) = (vec![Trit::Zero; n], vec![Trit::Zero; 2 * n]);
        iron_moe_gather_qmm_mma_eg::<Trit, Trit, Trit>(
            bits, &x, &w, &scales, &biases, &[1], &mut tiled, 1, 32, 512, 64, 2,
        );
        iron_dequant_gemv::<Trit, Trit>(
            bits, &w, &scales, &biases, &x, &mut single, 512, 64, 64, 96,
        );
        assert!(mixed(&tiled));
        assert_eq!(tiled, single[n..]);
        if bits == 4 {
            let mut fast = vec![Trit::Zero; 2 * n];
            iron_dequant_gemv_int4_fast::<Trit, Trit>(
                &w, &scales, &biases, &x, &mut fast, 512, 64, 64,
            );
            assert_eq!(fast, single);
        }
    }
}

#[test]
fn q8_products_are_gemvs() {
    let qs = words(5 * 64 / 4, 7);
    let (d, x) = (trits(5 * 2, 8), trits(3 * 64, 9));
    let mut tiled = vec![Trit::Zero; 15];
    iron_gemm_q8::<Trit, Trit>(&qs, &d, &x, &mut tiled, 64, 5, 3);
    for r in 0..3 {
        let mut single = vec![Trit::Zero; 5];
        iron_gemv_q8::<Trit, Trit, Trit>(&qs, &d, &x[r * 64..(r + 1) * 64], &mut single, 64, 5);
        assert_eq!(single, tiled[r * 5..(r + 1) * 5]);
    }
}

#[test]
fn iq2_xxs_kernels_agree() {
    let (m, n, k) = (5usize, 32usize, 256usize);
    let raw: Vec<u8> = words(2 * n * 66, 8).iter().map(|v| *v as u8).collect();
    let grid: Vec<u8> = (0..2048).map(|i| [8u8, 25, 43][i * i % 3]).collect();
    let signs: Vec<u8> = (0..128).map(|i| i as u8).collect();
    let x = trits(m * k, 10);
    let ids = [0u32, 1, 1, 0, 1];
    let mut tiled = vec![Trit::Zero; m * n];
    iron_moe_bgemm_iq2xxs_view::<Trit, Trit, Trit>(
        &x, &raw, &grid, &signs, &ids, &mut tiled, 5, 32, 256, 0, 32 * 66,
    );
    let mut qs = vec![0u32; 2 * n * 16];
    iron_gguf_iq2_xxs_extract_qs(&raw, &mut qs, 64);
    let d: Vec<Trit> = raw
        .chunks(66)
        .map(|b| {
            let bits = u16::from_le_bytes([b[0], b[1]]);
            let (e, f) = (i32::from(bits >> 10 & 31), i64::from(bits & 1023));
            let mag = if e == 0 { Trit::dyadic(f, -24) } else { Trit::dyadic(1024 + f, e - 25) };
            if bits & 0x8000 != 0 { mag.negated() } else { mag }
        })
        .collect();
    let mut rows = vec![Trit::Zero; m * n];
    iron_moe_gemv_ws_iq2xxs::<Trit, Trit>(
        &x, &qs, &d, &ids, &grid, &signs, &mut rows, 256, 32, 5, 2,
    );
    assert!(mixed(&tiled));
    assert_eq!(tiled, rows);
}

#[test]
fn normalising_rescales_the_weights() {
    let logits = [Trit::One, Trit::Zero, Trit::Two, Trit::One, Trit::Zero];
    let (mut a, mut b) = (vec![0u32; 2], vec![0u32; 2]);
    let (mut plain, mut own) = (vec![Trit::Zero; 2], vec![Trit::Zero; 2]);
    iron_moe_router_topk::<Trit, Trit>(&logits, &mut a, &mut plain, 5, 2, 0, 1);
    iron_moe_router_topk::<Trit, Trit>(&logits, &mut b, &mut own, 5, 2, 1, 1);
    assert_eq!(a, vec![2, 0]);
    assert_eq!(a, b);
    let sum = plain[0].plus(plain[1]);
    assert!(own.iter().zip(&plain).all(|(o, p)| *o == p.over(sum)));
}

#[test]
fn constant_rows_normalise_to_the_bias() {
    let x = vec![Trit::Two; 40];
    let (w, b) = (trits(40, 11), trits(40, 12));
    let mut out = vec![Trit::Zero; 40];
    iron_layer_norm::<Trit, Trit>(&x, &w, &b, &mut out, &[Trit::One], 40, 1, 32);
    assert_eq!(out, b);
}
