//! Positive Boolean state formulas over locations and their semantic keys.

pub mod formula;
pub mod minimal_model;
