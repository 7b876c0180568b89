pub mod bk_tree;
pub mod index;
pub mod inv_index;
pub mod paths;
