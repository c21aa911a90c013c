pub mod bits;
pub mod data;
pub mod mining;

pub mod cache;
pub mod node;
pub mod solution;
pub mod tree;
pub mod timing;
pub mod dl85;
pub mod bitvec_ops;
pub mod cli;
