//! Column-at-a-time cast of fixed-layout UTC timestamp strings to nanoseconds since the epoch.
//!
//! A null-free column whose strings all have the same layout is a buffer of fixed-stride records.
//! Sixteen of them are transposed at a time, so that one byte position of all sixteen fills one
//! vector register, and fields are combined lane by lane. A column is cast as a whole or declined
//! as a whole.

pub mod arrays;
pub mod avx2;
pub mod calendar;
pub mod column;
pub mod engine;
pub mod format;
pub mod lanes;
pub mod laws;
pub mod neon;
pub mod record;
pub mod text;
