//! Key and value cache layouts.

pub mod compact_kv;
