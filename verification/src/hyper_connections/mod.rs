//! Hyper-connections.

pub mod mhc;
