//! The concurrent hashing core of a family of associative containers, as a verified sequential
//! model: cells with tagged slots and an overflow chain, a power-of-two directory of cells that
//! is resized by draining its predecessor a few cells at a time, and the table that ties them
//! together. Lock words, waiter frames and the resize mutex are kept as plain state so that
//! every transition of their protocols carries a contract.

pub mod ebr;
pub mod exit_guard;
pub mod wait_queue;
pub mod hashindex;
pub mod hash_table;
pub mod map;
pub mod tree_index;
