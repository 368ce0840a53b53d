//! A small family of in-memory containers, each verified against a
//! mathematical model: a chained hash map with dynamic growth, a FIFO queue,
//! a LIFO stack, and a singly linked list.

pub mod hash_key;
pub mod hash_map;
pub mod queue;
pub mod singly_linked_list;
pub mod stack;
