//! Core benchmark runner utilities.

pub mod bench;
