//! A formal power series / polynomial arithmetic engine over modular
//! residues, parameterized by a pluggable convolution strategy.

pub mod convolve;
pub mod laws;
pub mod modnum;
pub mod poly;
pub mod sparse_table;
