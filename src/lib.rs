//! Reads catalog records, builds a directed "similar product" graph from
//! them and analyses the out-degrees of its nodes: the most connected
//! products and the distribution of degrees.

pub mod product;
pub mod pgraph;
pub mod index;
pub mod graph;
pub mod degree;
pub mod laws;
pub mod text;
pub mod parser;
