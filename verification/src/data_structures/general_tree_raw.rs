//! The general tree whose nodes own their children through boxes: [`Node`] and [`Tree`].
pub use crate::general_tree::{Node, Tree};
