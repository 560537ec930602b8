//! Wavelet trees over small unsigned symbols, with rank/select/access
//! queries, in a pointer-based and a level-packed layout, and a compact
//! directed graph built on top of the pointer-based tree.

pub mod bits;
pub mod symbol;
pub mod alphabet;
pub mod partition;
pub mod traits;
pub mod pointer;
pub mod graph;
pub mod pointer_less;
