//! Block formats.

pub mod dequant_q4;
pub mod gguf_dequant_q2_k;
pub mod gguf_iq2_xxs_extract_qs;
