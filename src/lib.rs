//! Two singly linked lists over a generic element type: a heap-allocated
//! chain of boxed nodes, and a fixed-capacity list whose nodes live in a
//! pre-allocated slot array threaded by indices, with a stack of free slots.
pub mod dynamic_list;
pub mod model;
pub mod static_list;

pub use dynamic_list::DynamicLinkedList;
pub use static_list::{StaticLinkedList, MAX_SIZE};
