//! Copies, scatters and selections.

pub mod argmax_rows;
pub mod copy;
pub mod indexed_argmax;
pub mod split_scatter_columns;
