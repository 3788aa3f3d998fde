//! Exact half-unit time, guard intervals, timed words, positive Boolean state
//! formulas and alternating real-time automata, with their contracts.

pub mod arta;
pub mod basis;
pub mod cohesion;
pub mod compare;
pub mod decomposition;
pub mod dot;
pub mod error;
pub mod evidence_afa;
pub mod hypothesis_arta;
pub mod json;
pub mod learner;
pub mod location;
pub mod observation_table;
pub mod oracles;
pub mod partition;
pub mod rowvec;
pub mod state_formula;
pub mod symbol;
pub mod text;
pub mod time;
pub mod timed_word;

pub use crate::arta::{Arta, ArtaBuilder, ArtaError, GuardedTransition};
pub use crate::basis::{BasisMinimization, BasisMinimizationError, BasisMinimizer, BasisReductionPhase};
pub use crate::cohesion::{
    apply_fix, find_not_basis_closed, find_not_distinct, find_not_evidence_closed, find_redundant_basis_word,
    make_cohesive_step, next_cohesion_fix, BasisWords, CohesionCheckError, CohesionFix, CohesionStepError,
};
pub use crate::evidence_afa::{build_from_cohesive_table, EvidenceAfa, EvidenceAfaError};
pub use crate::learner::{ActiveArtaLearner, ActiveArtaLearnerState, LearnError};
pub use crate::decomposition::{BasisDecomposer, BasisFormula, BasisVar, DecompositionError};
pub use crate::rowvec::{RowVec, RowVecError};
pub use crate::dot::DotOptions;
pub use crate::hypothesis_arta::{
    convert_basis_formula_to_dag_state_formula, evidence_state_to_location_id, AfaStateId, HypothesisArtaError,
};
pub use crate::oracles::equivalence::EquivalenceOracle;
pub use crate::oracles::membership::{ArtaMembershipOracle, CachingMembershipOracle, MembershipOracle};
pub use crate::oracles::whitebox::{WhiteBoxEqOracle, WhiteBoxEqOracleError};
pub use crate::state_formula::formula::{DagStateFormula, DagStateFormulaManager};
pub use crate::state_formula::minimal_model::MinimalModelKey;
pub use crate::error::IntervalError;
pub use crate::location::LocationId;
pub use crate::observation_table::{ObservationTable, TableError, TableQueryError};
pub use crate::symbol::Symbol;
pub use crate::time::delay::DelayRep;
pub use crate::time::interval::{Endpoint, Interval};
pub use crate::timed_word::{collect_timed_letters, TimedLetter, TimedWord};
