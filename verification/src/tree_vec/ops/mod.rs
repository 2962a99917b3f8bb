//! Conversions between vectors, ancestry matrices and Newick text.

pub mod avl;
pub mod bijection;
pub mod cherry_order;
pub mod counting;
pub mod matrix;
pub mod newick;
pub mod plain_text;
pub mod round_trip;
pub mod tree_shape;
pub mod vector;

pub use crate::tree_vec::types::Ancestry;
pub use crate::tree_vec::{add_leaf, remove_leaf};
pub use newick::build_newick;
pub use vector::{
    build_vector, find_coords_of_first_leaf, get_ancestry, get_pairs, order_cherries,
    order_cherries_no_parents, to_newick, to_vector,
};
