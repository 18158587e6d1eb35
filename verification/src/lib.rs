//! Weighted directed hypergraphs of production recipes, and a rate-driven
//! resolver that turns a target item and a throughput into a dependency tree.

pub mod arena;
pub mod error;
pub mod fraction;
pub mod hypergraph;
pub mod rate;
pub mod recipe;
pub mod render;
pub mod resolver;
pub mod tree;
