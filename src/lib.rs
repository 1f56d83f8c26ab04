//! An in-memory 2-3 search tree mapping `u64` keys to values.
//!
//! Every node holds one or two ordered entries and, unless it sits at the
//! bottom level, one child more than it has entries. All bottom nodes lie at
//! the same depth. Insertion splits overfull nodes on the way back up;
//! deletion resolves underflow by borrowing from or merging with a sibling.

mod tree;
mod insert;
mod delete;
mod inspect;
pub mod laws;

pub use tree::{CTree, above, below};
