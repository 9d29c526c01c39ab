//! Hash table implementations and the facts they share about slot arrays.

pub mod cuckoo;
pub mod linear;
pub mod quadratic;
pub mod slick;
pub mod slots;
pub mod std_set;
