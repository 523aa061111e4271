//! Verified data structures: an indexed binary min-heap priority queue, which
//! can remove any value it holds through a value-to-slot index, together
//! with a union-find forest, a binary search tree, linked lists (with boxed
//! nodes, or with nodes kept in a vector), a queue, a stack and a growable
//! byte array.

pub mod binary_search_tree;
pub mod boxed_singly_linked_list;
pub mod dynamic_array;
pub mod order;
pub mod pointed_doubly_linked_list;
pub mod pointed_list;
pub mod pointed_singly_linked_list;
pub mod priority_queue;
pub mod queue_pointed_singly_linked_list;
pub mod singly_linked_list;
pub mod stack_pointed_singly_linked_list;
pub mod union_find;
