//! Hash table benchmarking framework: the table implementations, the keys
//! they store, the deterministic hashing they share, the dataset generators
//! and the workload schedules, each with its contract.

pub mod datasets;
pub mod hash_utils;
pub mod implns;
pub mod laws;
pub mod runner;
pub mod trait_def;
pub mod workloads;
