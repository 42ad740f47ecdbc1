//! Generic containers whose links are explicit and checked: a doubly-linked
//! list with a mutating cursor, a singly-linked list, a growable array and an
//! unbalanced binary search tree.

pub mod binary_tree;
pub mod compare;
pub mod dequeue;
pub mod hashing;
pub mod laws;
pub mod list;
pub mod text;
pub mod vec;

pub use binary_tree::BTree;
pub use dequeue::DequeueList;
pub use list::LinkedList;
pub use vec::Vector;
