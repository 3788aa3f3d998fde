//! Time domain: half-unit delays and integer-bounded guard intervals.

pub mod delay;
pub mod interval;
