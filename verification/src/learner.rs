//! The active learner's state and the steps of one learning round: make
//! the empty word a prefix sample, repair cohesion one step at a time, turn
//! the cohesive table into a hypothesis, and refine the table with a
//! counterexample.
//!
//! The repair loop and the equivalence-query loop run until nothing changes
//! or no counterexample is found; they are driven by the caller, step by
//! step, since neither has a termination measure.

use vstd::prelude::*;

use crate::arta::Arta;
use crate::basis::{BasisMinimization, BasisMinimizer};
use crate::cohesion::{
    additive_repair, all_representable, all_samples, basis_rows_of, first_unrepresentable, make_cohesive_step, step_changed,
    BasisWords, CohesionStepError,
};
use crate::decomposition::decomposition_of;
use crate::evidence_afa::{build_from_cohesive_table, distinct_basis_rows, distinct_reps, extensions_present, EvidenceAfaError};
use crate::hypothesis_arta::{same_meaning, state_location_name, HypothesisArtaError};
use crate::observation_table::{ObservationTable, TableError, TableQueryError};
use crate::oracles::closure::agree_on;
use crate::oracles::membership::MembershipOracle;
use crate::oracles::equivalence::EquivalenceOracle;
use crate::state_formula::formula::DagStateFormulaManager;
use crate::symbol::Symbol;
use crate::timed_word::{letter_key, letters_key, TimedWord};

verus! {

/// Errors produced while learning.
#[derive(Debug)]
#[non_exhaustive]
pub enum LearnError<A, E, Q = std::convert::Infallible> {
    /// A membership query failed while filling the table.
    MembershipQuery {
        /// The table failure.
        source: TableQueryError<E>,
    },
    /// A cohesion-repair step failed.
    CohesionRepair {
        /// The repair failure.
        source: CohesionStepError<A, E>,
    },
    /// The evidence automaton could not be built.
    EvidenceAutomatonBuild {
        /// The build failure.
        source: EvidenceAfaError<A>,
    },
    /// The hypothesis automaton could not be built.
    HypothesisBuild {
        /// The conversion failure.
        source: HypothesisArtaError<A>,
    },
    /// The observation table broke one of its invariants.
    TableInvariant {
        /// The invariant failure.
        source: TableError,
    },
    /// An equivalence query failed.
    EquivalenceQuery {
        /// The oracle's failure.
        source: Q,
    },
}

/// The same error, for a learning loop whose equivalence queries fail with
/// `Q`.
fn promote_error<A, E, Q>(e: LearnError<A, E>) -> (r: LearnError<A, E, Q>)
    requires
        !(e is EquivalenceQuery),
    ensures
        e is MembershipQuery <==> r is MembershipQuery,
        e matches LearnError::CohesionRepair { source: CohesionStepError::TableQuery(_) } <==> r matches LearnError::CohesionRepair {
            source: CohesionStepError::TableQuery(_),
        },
        !(r is EquivalenceQuery),
{
    match e {
        LearnError::MembershipQuery { source } => LearnError::MembershipQuery { source },
        LearnError::CohesionRepair { source } => LearnError::CohesionRepair { source },
        LearnError::EvidenceAutomatonBuild { source } => LearnError::EvidenceAutomatonBuild { source },
        LearnError::HypothesisBuild { source } => LearnError::HypothesisBuild { source },
        LearnError::TableInvariant { source } => LearnError::TableInvariant { source },
        LearnError::EquivalenceQuery { .. } => LearnError::TableInvariant {
            source: TableError::LengthMismatch { expected: 0, found: 0 },
        },
    }
}

/// The learner's mutable state.
#[derive(Debug)]
pub struct ActiveArtaLearnerState<A: Symbol> {
    /// The observation table.
    pub observation_table: ObservationTable<A>,
    /// The current basis words.
    pub basis_words: BasisWords<A>,
    /// The manager for the hypotheses' state formulas.
    pub dag_state_formula_manager: std::sync::Arc<DagStateFormulaManager>,
    /// The number of hypotheses built.
    pub hypothesis_iterations: usize,
    /// The number of counterexamples processed.
    pub refinement_rounds: usize,
}

/// An active learner with a basis minimizer.
#[derive(Debug)]
pub struct ActiveArtaLearner<A: Symbol, M: BasisMinimizer<A>> {
    state: ActiveArtaLearnerState<A>,
    basis_minimizer: M,
    repair_steps: usize,
}

/// `a + b`, capped at `usize::MAX`.
pub open spec fn saturating_sum(a: int, b: int) -> int {
    if a + b > usize::MAX {
        usize::MAX as int
    } else {
        a + b
    }
}

impl<A: Symbol> ActiveArtaLearner<A, BasisMinimization> {
    /// A learner with the default (greedy) basis minimizer.
    pub fn new() -> (l: Self)
        ensures
            l.state().observation_table.wf(),
            l.state().basis_words.keys() == seq![Seq::<(Seq<char>, u32)>::empty()],
            l.state().hypothesis_iterations == 0,
            l.state().refinement_rounds == 0,
            l.minimizer() == BasisMinimization::Greedy,
    {
        Self::with_minimizer(BasisMinimization::Greedy)
    }
}

impl<A: Symbol, M: BasisMinimizer<A>> ActiveArtaLearner<A, M> {
    /// The learner's state.
    pub closed spec fn state(&self) -> ActiveArtaLearnerState<A> {
        self.state
    }

    /// The learner's basis minimizer.
    pub closed spec fn minimizer(&self) -> M {
        self.basis_minimizer
    }

    /// The number of cohesion repair steps that changed the table or the
    /// basis, capped at `usize::MAX`.
    pub closed spec fn repair_steps(&self) -> int {
        self.repair_steps as int
    }

    /// A learner with the given basis minimizer, an empty table and the
    /// empty word as its only basis word.
    pub fn with_minimizer(basis_minimizer: M) -> (l: Self)
        ensures
            l.state().observation_table.wf(),
            l.state().basis_words.keys() == seq![Seq::<(Seq<char>, u32)>::empty()],
            l.state().hypothesis_iterations == 0,
            l.state().refinement_rounds == 0,
            l.minimizer() == basis_minimizer,
            l.repair_steps() == 0,
    {
        let state = ActiveArtaLearnerState {
            observation_table: ObservationTable::new(),
            basis_words: BasisWords::new_with_epsilon(),
            dag_state_formula_manager: DagStateFormulaManager::new(),
            hypothesis_iterations: 0,
            refinement_rounds: 0,
        };
        ActiveArtaLearner { state, basis_minimizer, repair_steps: 0 }
    }

    /// Borrow the learner's state.
    pub fn learner_state(&self) -> (r: &ActiveArtaLearnerState<A>)
        ensures
            *r == self.state(),
    {
        &self.state
    }

    /// Mutably borrow the learner's state; the learner's state afterwards is
    /// what the borrow leaves behind.
    pub fn state_mut(&mut self) -> (r: &mut ActiveArtaLearnerState<A>)
        ensures
            *r == old(self).state(),
            final(self).state() == *final(r),
            final(self).minimizer() == old(self).minimizer(),
            final(self).repair_steps() == old(self).repair_steps(),
    {
        &mut self.state
    }

    /// Check the table's invariants; it never fails on a well-formed table.
    fn validate_table<E>(&self) -> (r: Result<(), LearnError<A, E>>)
        requires
            self.state().observation_table.wf(),
        ensures
            r is Ok,
    {
        proof {
            crate::observation_table::lemma_wf_facts(self.state.observation_table);
        }
        match self.state.observation_table.validate_invariants() {
            Ok(()) => Ok(()),
            Err(source) => Err(LearnError::TableInvariant { source }),
        }
    }

    /// Start a round: make the empty word a prefix sample.
    pub fn begin_hypothesis<O: MembershipOracle<Symbol = A>>(&mut self, mq: &mut O) -> (r: Result<
        (),
        LearnError<A, O::Error>,
    >)
        requires
            old(self).state().observation_table.wf(),
        ensures
            final(self).minimizer() == old(self).minimizer(),
            final(self).repair_steps() == old(self).repair_steps(),
            final(self).state().observation_table.wf(),
            final(mq).language() == old(mq).language(),
            final(mq).never_fails() == old(mq).never_fails(),
            old(mq).never_fails() ==> r is Ok,
            r matches Err(e) ==> !(e is EquivalenceQuery),
            r is Ok ==> !final(self).state().observation_table.pending(),
            final(self).state().basis_words.keys() == old(self).state().basis_words.keys(),
            final(self).state().hypothesis_iterations == old(self).state().hypothesis_iterations,
            final(self).state().refinement_rounds == old(self).state().refinement_rounds,
            r is Ok ==> final(self).state().observation_table.prefix_keys() == old(self).state().observation_table.prefix_keys() && final(self).state().observation_table.suffix_keys() == old(self).state().observation_table.suffix_keys(),
            r is Ok ==> (old(self).state().observation_table.filled_by(old(mq).language()) ==> final(self).state().observation_table.filled_by(old(mq).language())),
    {
        proof {
            crate::observation_table::lemma_wf_facts(self.state.observation_table);
            crate::observation_table::lemma_add_missing(
                self.state.observation_table.prefix_keys(),
                crate::observation_table::prefix_keys_of(Seq::empty()),
            );
            let ks = self.state.observation_table.prefix_keys();
            assert(ks.contains(ks[0]));
            assert(Seq::<(Seq<char>, u32)>::empty().take(0) =~= Seq::<(Seq<char>, u32)>::empty());
            assert(crate::observation_table::prefix_keys_of(Seq::<(Seq<char>, u32)>::empty()) =~= seq![
                Seq::<(Seq<char>, u32)>::empty(),
            ]);
            crate::observation_table::lemma_add_missing_one(ks, Seq::<(Seq<char>, u32)>::empty());
        }
        let empty = TimedWord::<A>::empty();
        proof {
            assert(letters_key(empty@) =~= Seq::<(Seq<char>, u32)>::empty());
        }
        match self.state.observation_table.insert_sample_prefixes(empty, mq) {
            Ok(()) => {},
            Err(source) => {
                return Err(LearnError::MembershipQuery { source });
            },
        }
        self.validate_table()
    }

    /// One cohesion-repair step with the learner's basis minimizer; `true`
    /// exactly when the prefix samples or the basis words changed.
    pub fn cohesion_step<O: MembershipOracle<Symbol = A>>(&mut self, mq: &mut O) -> (r: Result<
        bool,
        LearnError<A, O::Error>,
    >)
        requires
            old(self).state().observation_table.wf(),
        ensures
            final(self).minimizer() == old(self).minimizer(),
            final(self).repair_steps() == (if r matches Ok(true) { saturating_sum(old(self).repair_steps(), 1) } else { old(self).repair_steps() }),
            final(self).state().observation_table.wf(),
            final(mq).language() == old(mq).language(),
            final(mq).never_fails() == old(mq).never_fails(),
            final(self).state().hypothesis_iterations == old(self).state().hypothesis_iterations,
            final(self).state().refinement_rounds == old(self).state().refinement_rounds,
            r matches Err(e) ==> e is CohesionRepair,
            r matches Err(LearnError::CohesionRepair { source: CohesionStepError::BasisMinimization(e) })
                ==> old(self).minimizer().may_fail_with(
                old(self).state().observation_table,
                old(self).state().basis_words.keys(),
                e,
            ),
            (r matches Err(LearnError::CohesionRepair { source: CohesionStepError::Check(_) })) <==> !(old(self).state().basis_words.keys().len() > 0 && all_samples(
                old(self).state().observation_table,
                old(self).state().basis_words.keys(),
            )),
            old(mq).never_fails() ==> !(r matches Err(
                LearnError::CohesionRepair { source: CohesionStepError::TableQuery(_) },
            )),
            old(self).state().basis_words.keys().len() > 0 && all_samples(
                old(self).state().observation_table,
                old(self).state().basis_words.keys(),
            ) && !all_representable(
                old(self).state().observation_table,
                basis_rows_of(old(self).state().observation_table, old(self).state().basis_words.keys()),
            ) ==> r is Ok && final(self).state().observation_table == old(self).state().observation_table && exists|i: int|
                #[trigger] first_unrepresentable(
                    old(self).state().observation_table,
                    basis_rows_of(old(self).state().observation_table, old(self).state().basis_words.keys()),
                    i,
                ) && final(self).state().basis_words.keys() == (if old(self).state().basis_words.keys().contains(
                    old(self).state().observation_table.prefix_keys()[i],
                ) {
                    old(self).state().basis_words.keys()
                } else {
                    old(self).state().basis_words.keys().push(old(self).state().observation_table.prefix_keys()[i])
                }),
            r is Ok && all_representable(
                old(self).state().observation_table,
                basis_rows_of(old(self).state().observation_table, old(self).state().basis_words.keys()),
            ) ==> final(self).state().observation_table == old(self).state().observation_table || (final(self).state().basis_words.keys() == old(self).state().basis_words.keys() && additive_repair(
                old(self).state().observation_table,
                final(self).state().observation_table,
                old(self).state().basis_words.keys(),
            )),
            r matches Ok(false) ==> final(self).state().observation_table == old(self).state().observation_table
                && final(self).state().basis_words.keys() == old(self).state().basis_words.keys() && all_representable(
                old(self).state().observation_table,
                basis_rows_of(old(self).state().observation_table, old(self).state().basis_words.keys()),
            ),
            r matches Ok(c) ==> (c <==> step_changed(
                old(self).state().observation_table,
                final(self).state().observation_table,
                old(self).state().basis_words.keys(),
                final(self).state().basis_words.keys(),
            )),
            r is Ok ==> final(self).state().observation_table.suffix_keys() == old(self).state().observation_table.suffix_keys() && (old(self).state().observation_table.filled_by(
                old(mq).language(),
            ) ==> final(self).state().observation_table.filled_by(old(mq).language())),
    {
        match make_cohesive_step(&mut self.state.observation_table, &mut self.state.basis_words, &self.basis_minimizer, mq) {
            Ok(changed) => {
                match self.validate_table() {
                    Ok(()) => {},
                    Err(e) => {
                        return Err(e);
                    },
                }
                if changed {
                    self.repair_steps = self.repair_steps.saturating_add(1);
                }
                Ok(changed)
            },
            Err(source) => Err(LearnError::CohesionRepair { source }),
        }
    }

    /// Build the hypothesis of the current table and basis: the evidence
    /// automaton of the distinct basis rows, turned into an automaton whose
    /// location `q{i}` stands for distinct basis row `i`.
    #[verifier::rlimit(50)]
    pub fn finish_hypothesis<E>(&mut self) -> (r: Result<Arta<A>, LearnError<A, E>>)
        requires
            old(self).state().observation_table.wf(),
        ensures
            final(self).minimizer() == old(self).minimizer(),
            final(self).repair_steps() == old(self).repair_steps(),
            final(self).state().observation_table == old(self).state().observation_table,
            final(self).state().basis_words == old(self).state().basis_words,
            final(self).state().refinement_rounds == old(self).state().refinement_rounds,
            (r matches Err(LearnError::EvidenceAutomatonBuild { .. })) <==> !(old(self).state().basis_words.keys().len()
                > 0 && all_samples(old(self).state().observation_table, old(self).state().basis_words.keys())
                && extensions_present(
                old(self).state().observation_table,
                distinct_reps(old(self).state().observation_table, old(self).state().basis_words.keys()),
            )),
            r is Ok ==> final(self).state().hypothesis_iterations == (if old(self).state().hypothesis_iterations
                == usize::MAX {
                usize::MAX as int
            } else {
                old(self).state().hypothesis_iterations + 1
            }),
            r matches Ok(h) ==> hypothesis_reads_table(
                h,
                old(self).state().observation_table,
                old(self).state().basis_words.keys(),
            ),
            r matches Err(e) ==> e is EvidenceAutomatonBuild || e is HypothesisBuild,
            !(r matches Err(LearnError::HypothesisBuild { source: HypothesisArtaError::ArtaBuildFailed { .. } })),
    {
        let built = build_from_cohesive_table(&self.state.observation_table, &self.state.basis_words);
        let evidence = match built {
            Ok(a) => a,
            Err(source) => {
                return Err(LearnError::EvidenceAutomatonBuild { source });
            },
        };
        let hypothesis = match evidence.to_hypothesis_arta(&self.state.dag_state_formula_manager) {
            Ok(h) => h,
            Err(source) => {
                return Err(LearnError::HypothesisBuild { source });
            },
        };
        proof {
            crate::evidence_afa::lemma_shaped_lengths(evidence);
            lemma_hypothesis_reads_table(evidence, hypothesis, self.state.observation_table, self.state.basis_words.keys());
        }
        self.state.hypothesis_iterations = self.state.hypothesis_iterations.saturating_add(1);
        Ok(hypothesis)
    }

    /// Build the next hypothesis: make sure the table has the empty word's
    /// row, repair cohesion until a repair step changes nothing, then build
    /// the hypothesis from the cohesive table. At most `max_repairs` repair
    /// steps run; `Ok(None)` when all of them changed the table or basis.
    pub fn build_hypothesis<O: MembershipOracle<Symbol = A>>(&mut self, mq: &mut O, max_repairs: usize) -> (r: Result<
        Option<Arta<A>>,
        LearnError<A, O::Error>,
    >)
        requires
            old(self).state().observation_table.wf(),
        ensures
            final(self).minimizer() == old(self).minimizer(),
            r matches Ok(None) ==> final(self).repair_steps() == saturating_sum(old(self).repair_steps(), max_repairs as int),
            final(self).repair_steps() >= old(self).repair_steps(),
            final(self).state().observation_table.wf(),
            final(mq).language() == old(mq).language(),
            final(mq).never_fails() == old(mq).never_fails(),
            final(self).state().refinement_rounds == old(self).state().refinement_rounds,
            r matches Err(e) ==> !(e is EquivalenceQuery),
            old(mq).never_fails() ==> !(r matches Err(LearnError::MembershipQuery { .. })),
            old(mq).never_fails() ==> !(r matches Err(
                LearnError::CohesionRepair { source: CohesionStepError::TableQuery(_) },
            )),
            final(self).state().observation_table.suffix_keys() == old(self).state().observation_table.suffix_keys()
                || r is Err,
            r is Ok && old(self).state().observation_table.filled_by(old(mq).language())
                ==> final(self).state().observation_table.filled_by(old(mq).language()),
            r matches Ok(Some(h)) ==> {
                &&& hypothesis_reads_table(
                    h,
                    final(self).state().observation_table,
                    final(self).state().basis_words.keys(),
                )
                &&& all_representable(
                    final(self).state().observation_table,
                    basis_rows_of(final(self).state().observation_table, final(self).state().basis_words.keys()),
                )
            },
    {
        match self.begin_hypothesis(mq) {
            Ok(()) => {},
            Err(e) => {
                return Err(e);
            },
        }
        let ghost lang = old(mq).language();
        let ghost nf = old(mq).never_fails();
        let ghost sk = old(self).state().observation_table.suffix_keys();
        let ghost filled = old(self).state().observation_table.filled_by(lang);
        let mut steps: usize = 0;
        while steps < max_repairs
            invariant
                self.minimizer() == old(self).minimizer(),
                self.state().observation_table.wf(),
                mq.language() == lang,
                mq.never_fails() == nf,
                lang == old(mq).language(),
                nf == old(mq).never_fails(),
                self.state().refinement_rounds == old(self).state().refinement_rounds,
                self.state().observation_table.suffix_keys() == sk,
                sk == old(self).state().observation_table.suffix_keys(),
                filled == old(self).state().observation_table.filled_by(lang),
                filled ==> self.state().observation_table.filled_by(lang),
                steps <= max_repairs,
                self.repair_steps() == saturating_sum(old(self).repair_steps(), steps as int),
            decreases max_repairs - steps,
        {
            let ghost before = self.state().observation_table;
            let changed = match self.cohesion_step(mq) {
                Ok(c) => c,
                Err(e) => {
                    return Err(e);
                },
            };
            if !changed {
                proof {
                    assert(self.state().observation_table == before);
                }
                return match self.finish_hypothesis() {
                    Ok(h) => Ok(Some(h)),
                    Err(e) => Err(e),
                };
            }
            steps = steps + 1;
        }
        Ok(None)
    }

    /// Learn against the equivalence oracle `eq`: build a hypothesis,
    /// ask `eq` for a counterexample, refine the table with it, and repeat.
    /// At most `max_rounds` hypotheses are built, each with at most
    /// `max_repairs` repair steps; `Ok(None)` when a bound is reached first.
    /// A returned hypothesis accepts exactly the words over the oracle's
    /// alphabet that its target accepts.
    pub fn learn<O: MembershipOracle<Symbol = A>, Q: EquivalenceOracle<Symbol = A>>(
        &mut self,
        mq: &mut O,
        eq: &mut Q,
        max_rounds: usize,
        max_repairs: usize,
    ) -> (r: Result<Option<Arta<A>>, LearnError<A, O::Error, Q::Error>>)
        requires
            old(self).state().observation_table.wf(),
        ensures
            final(self).minimizer() == old(self).minimizer(),
            r matches Ok(None) ==> final(self).state().refinement_rounds == saturating_sum(old(self).state().refinement_rounds as int, max_rounds as int)
                || final(self).repair_steps() >= saturating_sum(old(self).repair_steps(), max_repairs as int),
            final(mq).language() == old(mq).language(),
            final(mq).never_fails() == old(mq).never_fails(),
            final(eq).target_model() == old(eq).target_model(),
            final(eq).alphabet_keys() == old(eq).alphabet_keys(),
            old(mq).never_fails() ==> !(r matches Err(LearnError::MembershipQuery { .. })),
            r matches Ok(Some(h)) ==> agree_on(old(eq).target_model(), h@, old(eq).alphabet_keys()),
            r matches Ok(Some(h)) ==> hypothesis_reads_table(
                h,
                final(self).state().observation_table,
                final(self).state().basis_words.keys(),
            ),
    {
        let mut rounds: usize = 0;
        while rounds < max_rounds
            invariant
                self.minimizer() == old(self).minimizer(),
                self.state().observation_table.wf(),
                mq.language() == old(mq).language(),
                mq.never_fails() == old(mq).never_fails(),
                eq.target_model() == old(eq).target_model(),
                eq.alphabet_keys() == old(eq).alphabet_keys(),
                rounds <= max_rounds,
                self.state().refinement_rounds == saturating_sum(old(self).state().refinement_rounds as int, rounds as int),
                self.repair_steps() >= old(self).repair_steps(),
            decreases max_rounds - rounds,
        {
            let hypothesis = match self.build_hypothesis(mq, max_repairs) {
                Ok(Some(h)) => h,
                Ok(None) => {
                    return Ok(None);
                },
                Err(e) => {
                    return Err(promote_error(e));
                },
            };
            match eq.find_counterexample(&hypothesis) {
                Ok(None) => {
                    return Ok(Some(hypothesis));
                },
                Ok(Some(counterexample)) => {
                    match self.refine_with_counterexample(mq, &counterexample) {
                        Ok(()) => {},
                        Err(e) => {
                            return Err(promote_error(e));
                        },
                    }
                },
                Err(source) => {
                    return Err(LearnError::EquivalenceQuery { source });
                },
            }
            rounds = rounds + 1;
        }
        Ok(None)
    }

    /// Refine the table with a counterexample: count the round and add the
    /// counterexample's suffixes as suffix experiments.
    pub fn refine_with_counterexample<O: MembershipOracle<Symbol = A>>(
        &mut self,
        mq: &mut O,
        counterexample: &TimedWord<A>,
    ) -> (r: Result<(), LearnError<A, O::Error>>)
        requires
            old(self).state().observation_table.wf(),
        ensures
            final(self).minimizer() == old(self).minimizer(),
            final(self).repair_steps() == old(self).repair_steps(),
            final(mq).language() == old(mq).language(),
            final(self).state().refinement_rounds == (if old(self).state().refinement_rounds == usize::MAX {
                usize::MAX as int
            } else {
                old(self).state().refinement_rounds + 1
            }),
            final(self).state().basis_words == old(self).state().basis_words,
            final(self).state().hypothesis_iterations == old(self).state().hypothesis_iterations,
            final(mq).never_fails() == old(mq).never_fails(),
            old(mq).never_fails() ==> r is Ok,
            r matches Err(e) ==> !(e is EquivalenceQuery),
            r is Ok ==> final(self).state().observation_table.wf() && final(self).state().observation_table.suffix_keys()
                == crate::observation_table::add_missing(
                old(self).state().observation_table.suffix_keys(),
                crate::observation_table::suffix_keys_of(letters_key(counterexample@)),
            ) && final(self).state().observation_table.prefix_keys() == old(self).state().observation_table.prefix_keys(),
            r is Ok ==> (old(self).state().observation_table.filled_by(old(mq).language()) ==> final(self).state().observation_table.filled_by(old(mq).language())),
    {
        self.state.refinement_rounds = self.state.refinement_rounds.saturating_add(1);
        match self.state.observation_table.insert_experiment_suffixes(counterexample.duplicate(), mq) {
            Ok(()) => {},
            Err(source) => {
                return Err(LearnError::MembershipQuery { source });
            },
        }
        self.validate_table()
    }
}

/// The hypothesis `h` reads the table `t` with basis keys `bkeys`: its
/// locations are `q{i}`, one per distinct basis row; `q{i}` accepts iff
/// that row holds in the empty-word column; the initial formula means the
/// decomposition of the empty word's row; and reading any timed letter of
/// the table words from `q{i}` means the decomposition of the row of the
/// `i`th representative extended by that letter.
pub open spec fn hypothesis_reads_table<A: Symbol>(h: Arta<A>, t: ObservationTable<A>, bkeys: Seq<Seq<(Seq<char>, u32)>>) -> bool {
    let rows = distinct_basis_rows(t, bkeys);
    let reps = distinct_reps(t, bkeys);
    &&& forall|n: Seq<char>|
        #![trigger h@.locations.contains(n)]
        h@.locations.contains(n) <==> exists|i: nat| i < rows.len() && n == #[trigger] state_location_name(i)
    &&& forall|n: Seq<char>|
        #![trigger h@.accepting.contains(n)]
        h@.accepting.contains(n) <==> exists|i: nat| i < rows.len() && rows[i as int][0] && n == #[trigger] state_location_name(i)
    &&& same_meaning(h@.init, decomposition_of(rows, t.row_for(Seq::<(Seq<char>, u32)>::empty())))
    &&& forall|i: int, a: int, j: int|
        #![trigger h@.target(state_location_name(i as nat), t.table_words()[a]@[j].0.key(), t.table_words()[a]@[j].1@)]
        0 <= i < rows.len() && 0 <= a < t.table_words().len() && 0 <= j < t.table_words()[a]@.len() ==> same_meaning(
            h@.target(state_location_name(i as nat), t.table_words()[a]@[j].0.key(), t.table_words()[a]@[j].1@),
            decomposition_of(rows, t.row_for(reps[i].push(letter_key(t.table_words()[a]@[j])))),
        )
}

/// The hypothesis of an evidence automaton built from a table reads that
/// table.
proof fn lemma_hypothesis_reads_table<A: Symbol>(
    afa: crate::evidence_afa::EvidenceAfa<A>,
    h: Arta<A>,
    t: ObservationTable<A>,
    bkeys: Seq<Seq<(Seq<char>, u32)>>,
)
    requires
        afa.rows() == distinct_basis_rows(t, bkeys),
        afa.rep_keys() == distinct_reps(t, bkeys),
        forall|i: int, j: int|
            0 <= i < t.table_words().len() && 0 <= j < t.table_words()[i]@.len() ==> crate::timed_word::contains_letter_key(
                afa.letters(),
                #[trigger] t.table_words()[i]@[j],
            ),
        afa.init_model() == decomposition_of(afa.rows(), t.row_for(Seq::<(Seq<char>, u32)>::empty())),
        afa.accepting_states().len() == afa.rows().len(),
        forall|q: int| 0 <= q < afa.rows().len() ==> #[trigger] afa.accepting_states()[q] == afa.rows()[q][0],
        forall|q: int, m: int|
            0 <= q < afa.rows().len() && 0 <= m < afa.letters().len() ==> #[trigger] afa.delta(q, m) == decomposition_of(
                afa.rows(),
                t.row_for(afa.rep_keys()[q].push(letter_key(afa.letters()[m]))),
            ),
        forall|n: Seq<char>|
            #![trigger h@.locations.contains(n)]
            h@.locations.contains(n) <==> exists|i: nat| i < afa.rows().len() && n == #[trigger] state_location_name(i),
        forall|n: Seq<char>|
            #![trigger h@.accepting.contains(n)]
            h@.accepting.contains(n) <==> exists|i: nat|
                i < afa.rows().len() && afa.accepting_states()[i as int] && n == #[trigger] state_location_name(i),
        same_meaning(h@.init, afa.init_model()),
        forall|i: int, m: int|
            0 <= i < afa.rows().len() && 0 <= m < afa.letters().len() ==> same_meaning(
                #[trigger] h@.target(state_location_name(i as nat), afa.letters()[m].0.key(), afa.letters()[m].1@),
                #[trigger] afa.delta(i, m),
            ),
    ensures
        hypothesis_reads_table(h, t, bkeys),
{
    let rows = distinct_basis_rows(t, bkeys);
    let reps = distinct_reps(t, bkeys);
    assert forall|n: Seq<char>| #![trigger h@.accepting.contains(n)]
        h@.accepting.contains(n) <==> exists|i: nat| i < rows.len() && rows[i as int][0] && n == #[trigger] state_location_name(i) by {
        if h@.accepting.contains(n) {
            let i = choose|i: nat| i < afa.rows().len() && afa.accepting_states()[i as int] && n == #[trigger] state_location_name(i);
            assert(afa.accepting_states()[i as int] == afa.rows()[i as int][0]);
        }
        if exists|i: nat| i < rows.len() && rows[i as int][0] && n == #[trigger] state_location_name(i) {
            let i = choose|i: nat| i < rows.len() && rows[i as int][0] && n == #[trigger] state_location_name(i);
            assert(afa.accepting_states()[i as int] == afa.rows()[i as int][0]);
        }
    }
    assert forall|i: int, a: int, j: int|
        #![trigger h@.target(state_location_name(i as nat), t.table_words()[a]@[j].0.key(), t.table_words()[a]@[j].1@)]
        0 <= i < rows.len() && 0 <= a < t.table_words().len() && 0 <= j < t.table_words()[a]@.len() implies same_meaning(
            h@.target(state_location_name(i as nat), t.table_words()[a]@[j].0.key(), t.table_words()[a]@[j].1@),
            decomposition_of(rows, t.row_for(reps[i].push(letter_key(t.table_words()[a]@[j])))),
        ) by {
        let w = t.table_words()[a]@[j];
        assert(crate::timed_word::contains_letter_key(afa.letters(), w));
        let m = choose|m: int| 0 <= m < afa.letters().len() && letter_key(#[trigger] afa.letters()[m]) == letter_key(w);
        assert(same_meaning(
            h@.target(state_location_name(i as nat), afa.letters()[m].0.key(), afa.letters()[m].1@),
            afa.delta(i, m),
        ));
    }
}

} // verus!
