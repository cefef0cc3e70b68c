//! Finite fields, additive secret sharing and the proof-vector layout of a
//! Prio-style private aggregation scheme.
pub mod encoding;
pub mod field;
pub mod fp;
pub mod prng;
pub mod util;
