//! Reconstruction of derivation trees from the completed state of an Earley parser.
pub mod assemble;
mod grammar;
pub mod laws;
pub mod table;
pub mod tree;

pub use assemble::{build_trees, bt_helper, trees_for_start};
pub use table::{BackPointer, Item, ParseState, Trigger};
pub use tree::{Subtree, Tree};
