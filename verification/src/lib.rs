//! Classic algorithms and data structures with machine-checked contracts:
//! a FIFO queue and a family of sorting routines.

pub mod data_structures;
pub mod sorting;
