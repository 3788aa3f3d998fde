//! Equivalence oracles: they tell whether a hypothesis automaton accepts the
//! target language, and give a distinguishing word when it does not.

use vstd::prelude::*;

use super::closure::agree_on;
use super::whitebox::{distinguishes, finite_delays, WhiteBoxEqOracle, WhiteBoxEqOracleError};
use crate::arta::{Arta, ArtaModel};
use crate::symbol::Symbol;
use crate::timed_word::TimedWord;

verus! {

/// An equivalence oracle answers "is this hypothesis correct?" for the
/// words with finite delays over its alphabet.
pub trait EquivalenceOracle {
    /// Alphabet symbol type used by the oracle.
    type Symbol: Symbol;

    /// Oracle-specific error type.
    type Error;

    /// The target automaton.
    spec fn target_model(&self) -> ArtaModel;

    /// The keys of the alphabet the oracle compares over.
    spec fn alphabet_keys(&self) -> Seq<Seq<char>>;

    /// Check whether `hyp` accepts the target language: `Ok(None)` when it
    /// accepts exactly the target's words over the alphabet with finite
    /// delays, `Ok(Some(w))` with such a word on which the two disagree.
    fn find_counterexample(&mut self, hyp: &Arta<Self::Symbol>) -> (r: Result<
        Option<TimedWord<Self::Symbol>>,
        Self::Error,
    >)
        ensures
            final(self).target_model() == old(self).target_model(),
            final(self).alphabet_keys() == old(self).alphabet_keys(),
            r matches Ok(Some(w)) ==> distinguishes(old(self).target_model(), hyp@, old(self).alphabet_keys(), w@)
                && finite_delays(w@),
            r matches Ok(None) ==> agree_on(old(self).target_model(), hyp@, old(self).alphabet_keys()),
    ;
}

impl<A: Symbol> EquivalenceOracle for WhiteBoxEqOracle<A> {
    type Symbol = A;

    type Error = WhiteBoxEqOracleError;

    open spec fn target_model(&self) -> ArtaModel {
        self@.0
    }

    open spec fn alphabet_keys(&self) -> Seq<Seq<char>> {
        self@.1
    }

    fn find_counterexample(&mut self, hyp: &Arta<A>) -> (r: Result<Option<TimedWord<A>>, WhiteBoxEqOracleError>) {
        WhiteBoxEqOracle::find_counterexample(self, hyp)
    }
}

} // verus!
