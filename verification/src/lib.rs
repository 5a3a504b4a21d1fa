//! Quantised-inference kernels, written over a pluggable scalar arithmetic.
//!
//! A kernel here is an ordinary function that runs a whole dispatch: it walks the
//! threadgroups and lanes of its launch grid and leaves in its output buffers what
//! the launch leaves there. The contracts fix every arithmetic step and its order.

pub mod convolution;
pub mod exact;
pub mod gemm;
pub mod hyper_connections;
pub mod kv_cache;
pub mod layout;
pub mod moe;
pub mod norm;
pub mod ops;
pub mod order;
pub mod primitives;
pub mod quant;
pub mod rows;
pub mod scalar;
pub mod select;
pub mod tensor;
pub mod tile;
pub mod trit;
