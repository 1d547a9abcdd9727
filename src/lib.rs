//! A singly-linked, append-only list whose nodes live in an index arena,
//! together with a splicing merge of two sorted lists.
pub mod linked_list;
pub mod order;
pub mod render;
mod splice;

pub use linked_list::{LinkedList, Node};
