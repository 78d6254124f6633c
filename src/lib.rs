//! A syntax-tree browser core: an arena model of a parsed tree, a traversal
//! cursor, a cursor-driven pre-order render walk, and directional navigation
//! of a single selection over the tree's named nodes.
pub mod builder;
pub mod cursor;
pub mod navigate;
pub mod order;
pub mod render;
pub mod tree;
