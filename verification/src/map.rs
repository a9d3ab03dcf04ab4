//! The flavour whose entries move: the cell that keeps its lock in a metadata word.

pub mod cell;
