//! Basis minimization strategies used during cohesion repair.
//!
//! A strategy says when it runs within one repair step and may propose a
//! smaller basis for the current table. The greedy strategy drops the first
//! redundant basis word; the set-cover strategies need a MILP backend that
//! this build does not have.

use vstd::prelude::*;

use crate::cohesion::{
    all_samples, checked_find_redundant_basis_word, keys_without, redundant_at, BasisWords, CohesionCheckError,
};
use crate::observation_table::ObservationTable;
use crate::symbol::Symbol;
use crate::timed_word::{letters_key, TimedWord};

verus! {

/// When a basis minimizer runs within one cohesion-repair step.
#[derive(Debug, Clone, Copy, PartialEq, Eq, Structural)]
pub enum BasisReductionPhase {
    /// After basis-closedness, before the additive repairs.
    BeforeAdditiveRepairs,
    /// Only once the additive repairs are exhausted.
    AfterAdditiveRepairs,
}

/// Errors produced while minimizing basis words.
#[derive(Debug, Clone, PartialEq, Eq)]
#[non_exhaustive]
pub enum BasisMinimizationError {
    /// A row needed while minimizing was missing from the prefix samples.
    MissingEpsilonSample,
    /// Two row-oriented structures had incompatible widths.
    LengthMismatch {
        /// Expected common row width.
        expected: usize,
        /// Observed row width.
        found: usize,
    },
    /// Basis minimization was requested for an empty basis.
    EmptyBasisWords,
    /// The decomposition helper reported an internal construction error.
    Decomposition {
        /// Reason returned by the decomposition helper.
        reason: String,
    },
    /// A set-cover strategy was selected but no MILP backend is available.
    MilpBackendUnavailable {
        /// Name of the requested strategy.
        strategy: &'static str,
    },
}

/// A strategy that may replace the basis by a smaller one during cohesion
/// repair.
pub trait BasisMinimizer<A: Symbol> {
    /// When this minimizer runs within one repair step.
    fn phase(&self) -> BasisReductionPhase;

    /// The minimizer may fail with `e` on a table and basis with keys
    /// `bkeys`; without a statement of its own, a minimizer may fail
    /// anywhere.
    open spec fn may_fail_with(&self, table: ObservationTable<A>, bkeys: Seq<Seq<(Seq<char>, u32)>>, e: BasisMinimizationError) -> bool {
        true
    }

    /// A replacement basis when the table admits a smaller one, or `None` to
    /// keep the current basis; it fails only where `may_fail_with` allows.
    fn minimize_basis(&self, table: &ObservationTable<A>, basis_words: &BasisWords<A>) -> (r: Result<
        Option<Vec<TimedWord<A>>>,
        BasisMinimizationError,
    >)
        requires
            table.wf(),
        ensures
            r matches Err(e) ==> self.may_fail_with(*table, basis_words.keys(), e),
    ;
}

/// The built-in basis minimizers.
#[derive(Debug, Clone, Copy, PartialEq, Eq, Structural)]
pub enum BasisMinimization {
    /// Remove the first redundant basis word.
    Greedy,
    /// A minimum-cardinality basis from an exact set-cover encoding.
    ExactMilp,
}

impl BasisMinimization {
    /// The strategy's name.
    pub fn as_str(self) -> (s: &'static str)
        ensures
            self is Greedy ==> s@ == "greedy"@,
            self is ExactMilp ==> s@ == "exact-milp"@,
    {
        match self {
            BasisMinimization::Greedy => "greedy",
            BasisMinimization::ExactMilp => "exact-milp",
        }
    }

    /// When the strategy runs: greedy removal before the additive repairs,
    /// set-cover minimization after them.
    pub open spec fn reduction_phase_spec(&self) -> BasisReductionPhase {
        match *self {
            BasisMinimization::Greedy => BasisReductionPhase::BeforeAdditiveRepairs,
            BasisMinimization::ExactMilp => BasisReductionPhase::AfterAdditiveRepairs,
        }
    }

    /// When the strategy runs: greedy removal before the additive repairs,
    /// set-cover minimization after them.
    pub fn reduction_phase(&self) -> (p: BasisReductionPhase)
        ensures
            p == self.reduction_phase_spec(),
    {
        match self {
            BasisMinimization::Greedy => BasisReductionPhase::BeforeAdditiveRepairs,
            BasisMinimization::ExactMilp => BasisReductionPhase::AfterAdditiveRepairs,
        }
    }

    /// The strategy's replacement basis: the greedy result, or an error for
    /// a set-cover strategy, which needs a MILP backend.
    pub fn minimized<A: Symbol>(&self, table: &ObservationTable<A>, basis_words: &BasisWords<A>) -> (r: Result<
        Option<Vec<TimedWord<A>>>,
        BasisMinimizationError,
    >)
        requires
            table.wf(),
        ensures
            *self is Greedy ==> greedy_outcome(*table, basis_words.keys(), r),
            *self is ExactMilp ==> (r matches Err(BasisMinimizationError::MilpBackendUnavailable { strategy })
                && strategy@ == "exact-milp"@),
    {
        match self {
            BasisMinimization::Greedy => greedy_minimized_basis(table, basis_words),
            BasisMinimization::ExactMilp => Err(BasisMinimizationError::MilpBackendUnavailable { strategy: "exact-milp" }),
        }
    }
}

impl Default for BasisMinimization {
    fn default() -> (r: Self)
        ensures
            r == BasisMinimization::Greedy,
    {
        BasisMinimization::Greedy
    }
}

impl<A: Symbol> BasisMinimizer<A> for BasisMinimization {
    fn phase(&self) -> BasisReductionPhase {
        self.reduction_phase()
    }

    /// The greedy minimizer fails only when a basis word is not a prefix
    /// sample; set-cover minimization always reports its missing backend.
    open spec fn may_fail_with(&self, table: ObservationTable<A>, bkeys: Seq<Seq<(Seq<char>, u32)>>, e: BasisMinimizationError) -> bool {
        match *self {
            BasisMinimization::Greedy => !all_samples(table, bkeys),
            BasisMinimization::ExactMilp => e matches BasisMinimizationError::MilpBackendUnavailable { strategy }
                && strategy@ == "exact-milp"@,
        }
    }

    fn minimize_basis(&self, table: &ObservationTable<A>, basis_words: &BasisWords<A>) -> (r: Result<
        Option<Vec<TimedWord<A>>>,
        BasisMinimizationError,
    >)
        ensures
            *self is Greedy ==> greedy_outcome(*table, basis_words.keys(), r),
            *self is ExactMilp ==> (r matches Err(BasisMinimizationError::MilpBackendUnavailable { strategy })
                && strategy@ == "exact-milp"@),
    {
        self.minimized(table, basis_words)
    }
}

/// The greedy minimizer fails only on a basis with a word that is not a
/// prefix sample of the table.
pub proof fn lemma_greedy_fails_only_off_samples<A: Symbol>(
    table: ObservationTable<A>,
    bkeys: Seq<Seq<(Seq<char>, u32)>>,
    e: BasisMinimizationError,
)
    requires
        all_samples(table, bkeys),
    ensures
        !BasisMinimizer::<A>::may_fail_with(&BasisMinimization::Greedy, table, bkeys, e),
{
}

/// What the greedy minimizer returns for basis keys `bkeys`: the basis
/// without its first redundant word, `None` when no word is redundant, and
/// an error only when a basis word is not a prefix sample.
pub open spec fn greedy_outcome<A: Symbol>(
    t: ObservationTable<A>,
    bkeys: Seq<Seq<(Seq<char>, u32)>>,
    r: Result<Option<Vec<TimedWord<A>>>, BasisMinimizationError>,
) -> bool {
    &&& all_samples(t, bkeys) ==> r is Ok
    &&& r is Err ==> !all_samples(t, bkeys)
    &&& r matches Ok(Some(ws)) ==> exists|i: int|
        #[trigger] redundant_at(t, bkeys, i) && (forall|j: int| 0 <= j < i ==> !redundant_at(t, bkeys, j)) && Seq::new(
            ws@.len(),
            |k: int| letters_key(ws@[k]@),
        ) == keys_without(bkeys, bkeys[i])
    &&& r matches Ok(None) ==> forall|i: int| 0 <= i < bkeys.len() ==> !#[trigger] redundant_at(t, bkeys, i)
}

/// The minimization error for a failed cohesion check.
fn minimization_error<A>(e: CohesionCheckError<A>) -> (r: BasisMinimizationError)
    ensures
        e is MissingRow ==> r is MissingEpsilonSample,
        e is EmptyBasisWords ==> r is EmptyBasisWords,
        e matches CohesionCheckError::LengthMismatch { expected, found } ==> r matches BasisMinimizationError::LengthMismatch {
            expected: e2,
            found: f2,
        } && e2 == expected && f2 == found,
        e matches CohesionCheckError::Decomposition(reason) ==> r matches BasisMinimizationError::Decomposition {
            reason: r2,
        } && r2@ == reason@,
{
    match e {
        CohesionCheckError::MissingRow { .. } => BasisMinimizationError::MissingEpsilonSample,
        CohesionCheckError::LengthMismatch { expected, found } => BasisMinimizationError::LengthMismatch { expected, found },
        CohesionCheckError::AttemptedToRemoveEpsilon => BasisMinimizationError::EmptyBasisWords,
        CohesionCheckError::EmptyBasisWords => BasisMinimizationError::EmptyBasisWords,
        CohesionCheckError::Decomposition(reason) => BasisMinimizationError::Decomposition { reason },
    }
}

/// The greedy minimizer: the basis without its first redundant word, or
/// `None` when no basis word can be dropped.
pub fn greedy_minimized_basis<A: Symbol>(table: &ObservationTable<A>, basis_words: &BasisWords<A>) -> (r: Result<
    Option<Vec<TimedWord<A>>>,
    BasisMinimizationError,
>)
    requires
        table.wf(),
    ensures
        greedy_outcome(*table, basis_words.keys(), r),
{
    match checked_find_redundant_basis_word(table, basis_words) {
        Err(e) => Err(minimization_error(e)),
        Ok(None) => Ok(None),
        Ok(Some(w)) => Ok(Some(basis_words.without(&w))),
    }
}

} // verus!
