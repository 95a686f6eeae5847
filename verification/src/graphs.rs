//! Concrete graph structures.

pub mod simple;
