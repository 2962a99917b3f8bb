//! Phylo2Vec: a bijective encoding between rooted binary trees over labelled
//! leaves and integer vectors, with conversions to and from Newick text.

pub mod tree_vec;
pub mod utils;
