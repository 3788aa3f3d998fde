use std::sync::atomic::{AtomicUsize, Ordering};
use std::sync::Arc;

use learn_arta::time::interval::Interval;
use learn_arta::{
    ActiveArtaLearner, Arta, ArtaBuilder, ArtaMembershipOracle, BasisMinimization, BasisMinimizationError,
    BasisMinimizer, BasisReductionPhase, BasisWords, CachingMembershipOracle, CohesionStepError, DagStateFormula,
    DagStateFormulaManager, DelayRep, LearnError, LocationId, MembershipOracle, ObservationTable, TimedWord,
};

/// The target of these tests: accepts exactly the words of even length,
/// over `a` and `b`, whatever their delays.
fn even_length_target() -> Arta<char> {
    let manager = DagStateFormulaManager::new();
    let even = LocationId::new("even");
    let odd = LocationId::new("odd");
    let any_delay = Interval::from_bounds(true, 0, false, None).unwrap();
    let mut builder = ArtaBuilder::new(DagStateFormula::var(&manager, even.clone()));
    builder.add_location(even.clone()).add_location(odd.clone()).add_accepting(even.clone());
    for symbol in ['a', 'b'] {
        builder.add_transition(even.clone(), symbol, any_delay, DagStateFormula::var(&manager, odd.clone()));
        builder.add_transition(odd.clone(), symbol, any_delay, DagStateFormula::var(&manager, even.clone()));
    }
    builder.build().unwrap()
}

/// A membership oracle for the even-length target that counts its queries.
fn counting_oracle() -> CachingMembershipOracle<ArtaMembershipOracle<char>> {
    CachingMembershipOracle::new(ArtaMembershipOracle::new(even_length_target()))
}

fn query_count(mq: &CachingMembershipOracle<ArtaMembershipOracle<char>>) -> usize {
    mq.cache_hits() + mq.cache_misses()
}

/// The half-unit class of a non-negative real delay: `2d` for an integer
/// `d`, and `2⌊d⌋ + 1` otherwise.
fn normalize_delay(d: f64) -> DelayRep {
    let floor = d.floor();
    if floor == d {
        DelayRep::from_half_units((2.0 * d) as u32)
    } else {
        DelayRep::from_half_units((2.0 * floor) as u32 + 1)
    }
}

fn normalized_word(letters: &[(char, f64)]) -> TimedWord<char> {
    TimedWord::from_vec(letters.iter().map(|(symbol, d)| (*symbol, normalize_delay(*d))).collect())
}

/// One hypothesis: the empty word, cohesion repairs until nothing changes,
/// then the hypothesis automaton.
fn build_hypothesis<M: BasisMinimizer<char>>(
    learner: &mut ActiveArtaLearner<char, M>,
    mq: &mut CachingMembershipOracle<ArtaMembershipOracle<char>>,
) -> Result<Arta<char>, LearnError<char, ()>> {
    match learner.begin_hypothesis(mq) {
        Ok(()) => {}
        Err(e) => panic!("the empty word should be queried: {e:?}"),
    }
    let mut steps = 0;
    loop {
        match learner.cohesion_step(mq) {
            Ok(true) => {}
            Ok(false) => break,
            Err(LearnError::CohesionRepair { source: CohesionStepError::BasisMinimization(e) }) => {
                return Err(LearnError::CohesionRepair { source: CohesionStepError::BasisMinimization(e) });
            }
            Err(e) => panic!("cohesion repair failed: {e:?}"),
        }
        steps += 1;
        assert!(steps < 1000, "cohesion repair should reach a fixpoint");
    }
    learner.finish_hypothesis::<()>()
}

/// Learning with an equivalence oracle that answers from a script: a
/// hypothesis per round, refined with each scripted counterexample, until
/// the script answers that there is none.
fn learn_with_script<M: BasisMinimizer<char>>(
    learner: &mut ActiveArtaLearner<char, M>,
    mq: &mut CachingMembershipOracle<ArtaMembershipOracle<char>>,
    responses: &[Option<TimedWord<char>>],
    calls: &mut usize,
) -> Arta<char> {
    loop {
        let hypothesis = build_hypothesis(learner, mq).unwrap();
        let response = responses.get(*calls).cloned().unwrap_or(None);
        *calls += 1;
        match response {
            None => return hypothesis,
            Some(cex) => learner.refine_with_counterexample(mq, &cex).unwrap(),
        }
    }
}

#[derive(Debug)]
struct CountingCustomMinimizer {
    calls: Arc<AtomicUsize>,
}

impl BasisMinimizer<char> for CountingCustomMinimizer {
    fn phase(&self) -> BasisReductionPhase {
        BasisReductionPhase::AfterAdditiveRepairs
    }

    fn minimize_basis(
        &self,
        _table: &ObservationTable<char>,
        _basis_words: &BasisWords<char>,
    ) -> Result<Option<Vec<TimedWord<char>>>, BasisMinimizationError> {
        self.calls.fetch_add(1, Ordering::Relaxed);
        Ok(None)
    }
}

#[test]
fn learner_happy_path_returns_hypothesis_when_eq_accepts_immediately() {
    let mut learner: ActiveArtaLearner<char, BasisMinimization> = ActiveArtaLearner::new();
    let mut mq = counting_oracle();
    let mut calls = 0;

    let hypothesis = learn_with_script(&mut learner, &mut mq, &[None], &mut calls);

    assert!(!hypothesis.locations().is_empty());
    assert_eq!(calls, 1);
    assert_eq!(learner.learner_state().refinement_rounds, 0);
    assert_eq!(learner.learner_state().hypothesis_iterations, 1);
}

#[test]
fn learner_stepwise_refinement_normalizes_and_adds_suffixes() {
    let counterexample = normalized_word(&[('a', 1.2), ('b', 2.0)]);
    assert_eq!(counterexample.as_slice()[0].1, DelayRep::from_half_units(3));
    assert_eq!(counterexample.as_slice()[1].1, DelayRep::from_half_units(4));

    let mut learner: ActiveArtaLearner<char, BasisMinimization> = ActiveArtaLearner::new();
    let initial_suffixes: Vec<TimedWord<char>> =
        learner.learner_state().observation_table.experiment_suffixes().to_vec();
    let expected_new_suffixes: Vec<TimedWord<char>> = counterexample
        .suffixes()
        .into_iter()
        .filter(|suffix| !initial_suffixes.iter().any(|s| s.same_word(suffix)))
        .collect();

    let mut mq = counting_oracle();
    let first_hypothesis = build_hypothesis(&mut learner, &mut mq).unwrap();
    let queries_after_first_hypothesis = query_count(&mq);

    assert!(!first_hypothesis.locations().is_empty());
    assert_eq!(learner.learner_state().hypothesis_iterations, 1);
    assert_eq!(learner.learner_state().refinement_rounds, 0);

    learner.refine_with_counterexample(&mut mq, &counterexample).unwrap();

    let final_suffixes = learner.learner_state().observation_table.experiment_suffixes().len();
    assert!(
        final_suffixes >= initial_suffixes.len() + expected_new_suffixes.len(),
        "expected at least {} suffixes, found {}",
        initial_suffixes.len() + expected_new_suffixes.len(),
        final_suffixes
    );
    assert_eq!(learner.learner_state().hypothesis_iterations, 1);
    assert_eq!(learner.learner_state().refinement_rounds, 1);
    assert!(
        query_count(&mq) > queries_after_first_hypothesis,
        "expected MQ calls to increase during counterexample refinement"
    );

    let second_hypothesis = build_hypothesis(&mut learner, &mut mq).unwrap();

    assert!(!second_hypothesis.locations().is_empty());
    assert_eq!(learner.learner_state().hypothesis_iterations, 2);
    assert_eq!(learner.learner_state().refinement_rounds, 1);
}

#[test]
fn learner_builds_after_single_letter_counterexample_refinement() {
    let counterexample = normalized_word(&[('a', 3.0)]);

    let mut learner: ActiveArtaLearner<char, BasisMinimization> = ActiveArtaLearner::new();
    let mut mq = counting_oracle();

    let first_hypothesis = build_hypothesis(&mut learner, &mut mq).unwrap();
    assert!(!first_hypothesis.locations().is_empty());

    learner.refine_with_counterexample(&mut mq, &counterexample).unwrap();

    let second_hypothesis = build_hypothesis(&mut learner, &mut mq).unwrap();

    assert!(!second_hypothesis.locations().is_empty());
    assert_eq!(learner.learner_state().hypothesis_iterations, 2);
    assert_eq!(learner.learner_state().refinement_rounds, 1);
    assert!(learner
        .learner_state()
        .observation_table
        .sample_prefixes()
        .iter()
        .any(|word| word.same_word(&counterexample)));
}

#[test]
fn learner_multiple_refinements_terminates_without_panics() {
    let cex1 = normalized_word(&[('a', 0.7), ('b', 1.0)]);
    let cex2 = normalized_word(&[('b', 1.9)]);
    let mut learner: ActiveArtaLearner<char, BasisMinimization> = ActiveArtaLearner::new();
    let initial_suffix_len = learner.learner_state().observation_table.experiment_suffixes().len();

    let mut mq = counting_oracle();
    let mut calls = 0;
    let hypothesis = learn_with_script(&mut learner, &mut mq, &[Some(cex1), Some(cex2), None], &mut calls);

    assert!(!hypothesis.locations().is_empty());
    assert_eq!(calls, 3);
    assert_eq!(learner.learner_state().refinement_rounds, 2);
    assert_eq!(learner.learner_state().hypothesis_iterations, 3);
    assert!(learner.learner_state().observation_table.experiment_suffixes().len() >= initial_suffix_len);
}

#[test]
fn learner_uses_feature_appropriate_default_basis_minimization() {
    let mut learner: ActiveArtaLearner<char, BasisMinimization> = ActiveArtaLearner::new();
    let mut mq = counting_oracle();

    assert!(build_hypothesis(&mut learner, &mut mq).is_ok());
}

#[test]
fn learner_reports_exact_milp_backend_unavailable_without_feature() {
    let mut learner = ActiveArtaLearner::<char, BasisMinimization>::with_minimizer(BasisMinimization::ExactMilp);
    let mut mq = counting_oracle();

    let error = build_hypothesis(&mut learner, &mut mq).expect_err("exact MILP should be unavailable in this build");

    assert!(matches!(
        error,
        LearnError::CohesionRepair {
            source: CohesionStepError::BasisMinimization(BasisMinimizationError::MilpBackendUnavailable {
                strategy: "exact-milp"
            })
        }
    ));
}

#[test]
fn learner_with_custom_basis_minimizer_reports_custom_and_invokes_it() {
    let calls = Arc::new(AtomicUsize::new(0));
    let custom_minimizer = CountingCustomMinimizer { calls: Arc::clone(&calls) };
    let mut learner = ActiveArtaLearner::<char, CountingCustomMinimizer>::with_minimizer(custom_minimizer);
    let mut mq = counting_oracle();

    let hypothesis = build_hypothesis(&mut learner, &mut mq).unwrap();

    assert!(!hypothesis.locations().is_empty());
    assert!(calls.load(Ordering::Relaxed) > 0);
}

#[test]
fn repeated_identical_query_only_calls_inner_once() {
    let mut oracle = counting_oracle();
    let word = TimedWord::from_vec(vec![('a', DelayRep::from_integer(0)), ('b', DelayRep::from_floor_plus_half(2))]);

    let first = oracle.query(&word).expect("the automaton oracle must not fail");
    let second = oracle.query(&word).expect("the automaton oracle must not fail");

    assert_eq!(first, second);
    assert_eq!(oracle.cache_misses(), 1);
    assert_eq!(oracle.cache_hits(), 1);
}

#[test]
fn exact_strategy_defers_basis_minimization_until_additive_repairs_are_quiet() {
    let p_word = TimedWord::from_vec(vec![('a', DelayRep::from_half_units(6))]);
    let expected = p_word.concat(&p_word);

    // the target accepts exactly the empty word and `p_word`
    let manager = DagStateFormulaManager::new();
    let q0 = LocationId::new("q0");
    let q1 = LocationId::new("q1");
    let q2 = LocationId::new("q2");
    let mut builder = ArtaBuilder::new(DagStateFormula::var(&manager, q0.clone()));
    builder.add_location(q0.clone()).add_location(q1.clone()).add_location(q2.clone());
    builder.add_accepting(q0.clone()).add_accepting(q1.clone());
    builder.add_transition(q0.clone(), 'a', Interval::closed(3, 3).unwrap(), DagStateFormula::var(&manager, q1.clone()));
    builder.add_transition(q1.clone(), 'a', Interval::closed(3, 3).unwrap(), DagStateFormula::var(&manager, q2.clone()));
    let mut mq = ArtaMembershipOracle::new(builder.build().unwrap());

    let mut table: ObservationTable<char> = ObservationTable::new();
    table.insert_experiment_suffixes(p_word.clone(), &mut mq).unwrap();
    table.insert_sample_prefixes(p_word.clone(), &mut mq).unwrap();

    let mut basis_words = BasisWords::new_with_epsilon();
    assert!(basis_words.insert(p_word.clone()));

    let changed =
        learn_arta::make_cohesive_step(&mut table, &mut basis_words, &BasisMinimization::ExactMilp, &mut mq).unwrap();

    assert!(changed);
    assert!(table.contains_sample_prefix(&expected));
    assert!(basis_words.contains(&TimedWord::empty()));
    assert!(basis_words.contains(&p_word));
    assert_eq!(basis_words.len(), 2);
}

#[test]
fn exact_strategy_reports_backend_unavailable_without_feature() {
    let minimizer = BasisMinimization::ExactMilp;

    let error = minimizer
        .minimize_basis(&ObservationTable::<char>::new(), &BasisWords::new_with_epsilon())
        .expect_err("exact MILP should be unavailable in this build");

    assert!(matches!(error, BasisMinimizationError::MilpBackendUnavailable { strategy: "exact-milp" }));
}
