//! Matrix-vector and matrix-matrix products over quantised weights.

pub mod affine_groups;
pub mod batched_qkv_block_scaled_qmm;
pub mod block_scaled_matmul;
pub mod dense;
pub mod dequant_gemv;
pub mod dequant_gemv_fast;
pub mod gemm_q4_bm8;
pub mod gemm_q4_bm8_narrow;
pub mod gemm_q8;
pub mod gemv_axpy_inplace;
pub mod gemv_quantized;
pub mod indirect;
pub mod packed_rows;
pub mod q4;
pub mod q8;
pub mod scaled_blocks;
