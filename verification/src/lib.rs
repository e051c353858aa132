//! A link-cut tree: a forest of rooted trees under `link`, `cut` and root queries,
//! stored as splay trees over an index-addressed arena.

pub mod link_cut_tree;
pub mod preferred_paths;
pub mod rendering;
pub mod rooted_forest;
pub mod rotations;
pub mod shape;
pub mod slice_ext;
pub mod splay_forest;
pub mod splices;
