//! An intrusive doubly linked list over a table of nodes that the caller
//! keeps.
//!
//! The list never allocates, copies or frees a node. Every node lives in a
//! `Vec<Node<T>>` of the caller, a link is the index of a node in that table
//! (its slot), and each operation that follows or rewrites a link is handed
//! the table. A [`List`] holds the slots of its two ends and a count; a
//! [`CursorMut`] walks a list and edits it in place.
//!
//! The view of a list, `list@`, is the sequence of its slots from front to
//! back. A list is well formed with respect to a table, `list.wf(nodes@)`,
//! when the links in the table chain exactly those slots together. Every
//! operation asks for that and keeps it.

pub mod chain;
pub mod laws;
pub mod list;
pub mod node;

pub use list::cursor::CursorMut;
pub use list::List;
pub use node::{Link, Node};
