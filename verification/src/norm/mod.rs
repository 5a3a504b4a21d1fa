//! Normalisation.

pub mod layer_norm;
