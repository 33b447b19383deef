//! A verified workload generator and summation benchmark.
//!
//! The library encodes the integers `0..count` as a bracketed,
//! comma-separated decimal list, decodes such text back into a sequence of
//! unsigned 32-bit integers, and sums a sequence into a 64-bit total.
//! Every step carries a contract that pins the result down exactly, and the
//! round-trip, boundary and sum laws are proved in `laws`.

pub mod aggregate;
pub mod codec;
pub mod driver;
pub mod grammar;
pub mod laws;
