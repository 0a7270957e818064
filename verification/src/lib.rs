//! Fixed-capacity containers: a bounded vector with a compile-time capacity
//! and a bounded byte string built on top of it.

pub mod string;
pub mod vector;
