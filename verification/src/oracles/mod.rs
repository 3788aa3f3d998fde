//! Oracles over automata: guard-membership classes and exact white-box
//! equivalence.

pub mod closure;
pub mod equivalence;
pub mod finite;
pub mod membership;
pub mod partition;
pub mod whitebox;
