pub mod laws;
pub mod newick;
pub mod node;
pub mod query;
pub mod traverse;
pub mod tree;
pub mod weight;
