//! Columnar comparison engine for keyed tabular data: a shared symbol
//! dictionary, columns of symbol ids, an in-place permutation sort that
//! keeps rows aligned across columns, and a sorted merge-join comparator
//! that reports one-sided rows and per-cell differences.

pub mod bits;
pub mod cli;
pub mod column;
pub mod sym;
pub mod table;
pub mod keyed;
pub mod compare;
pub mod config;
