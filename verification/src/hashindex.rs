//! The read-optimised flavour: cells whose removed entries stay in place until the cell is
//! retired.

pub mod cell;
