use learn_arta::oracles::membership::ArtaMembershipOracle;
use learn_arta::time::interval::Interval;
use learn_arta::{
    ActiveArtaLearner, Arta, ArtaBuilder, BasisMinimization, DagStateFormula, DagStateFormulaManager, DelayRep,
    LearnError, LocationId, TimedWord, WhiteBoxEqOracle,
};

/// Accepts the words over `a` of even length whose every delay is below 1.
fn target() -> Arta<char> {
    let manager = DagStateFormulaManager::new();
    let even = LocationId::new("even");
    let odd = LocationId::new("odd");
    let fast = Interval::from_bounds(true, 0, false, Some(1)).unwrap();
    let mut builder = ArtaBuilder::new(DagStateFormula::var(&manager, even.clone()));
    builder.add_location(even.clone()).add_location(odd.clone()).add_accepting(even.clone());
    builder.add_transition(even.clone(), 'a', fast, DagStateFormula::var(&manager, odd.clone()));
    builder.add_transition(odd.clone(), 'a', fast, DagStateFormula::var(&manager, even.clone()));
    builder.build().unwrap()
}

fn timed_word(letters: &[(char, u32)]) -> TimedWord<char> {
    TimedWord::from_vec(
        letters
            .iter()
            .map(|(symbol, half_units)| (*symbol, DelayRep::from_half_units(*half_units)))
            .collect(),
    )
}

/// One hypothesis: the empty word, cohesion repairs until nothing changes,
/// then the hypothesis automaton.
fn build_hypothesis(
    learner: &mut ActiveArtaLearner<char, BasisMinimization>,
    mq: &mut ArtaMembershipOracle<char>,
) -> Arta<char> {
    learner.begin_hypothesis(mq).unwrap();
    let mut steps = 0;
    while learner.cohesion_step(mq).unwrap() {
        steps += 1;
        assert!(steps < 1000, "cohesion repair should reach a fixpoint");
    }
    match learner.finish_hypothesis::<()>() {
        Ok(h) => h,
        Err(_) => panic!("hypothesis should build"),
    }
}

#[test]
fn learner_finds_hypothesis_equivalent_to_target() {
    let mut mq = ArtaMembershipOracle::new(target());
    let mut eq = WhiteBoxEqOracle::try_new(target(), vec!['a']).unwrap();
    let mut learner = ActiveArtaLearner::new();
    let mut rounds = 0;
    let hypothesis = loop {
        let hypothesis = build_hypothesis(&mut learner, &mut mq);
        match eq.find_counterexample(&hypothesis).unwrap() {
            None => break hypothesis,
            Some(cex) => {
                learner.refine_with_counterexample(&mut mq, &cex).unwrap();
            }
        }
        rounds += 1;
        assert!(rounds < 50, "learning should terminate");
    };
    assert!(hypothesis.accepts(&TimedWord::empty()));
    assert!(!hypothesis.accepts(&timed_word(&[('a', 1)])));
    assert!(hypothesis.accepts(&timed_word(&[('a', 1), ('a', 0)])));
    assert!(!hypothesis.accepts(&timed_word(&[('a', 1), ('a', 2)])));
    let state = learner.learner_state();
    assert!(state.hypothesis_iterations >= 1);
    assert_eq!(state.refinement_rounds + 1, state.hypothesis_iterations);
    assert!(state.observation_table.validate_invariants().is_ok());
}

#[test]
fn refine_with_counterexample_adds_suffixes_and_counts_round() {
    let mut mq = ArtaMembershipOracle::new(target());
    let mut learner = ActiveArtaLearner::new();
    let cex = timed_word(&[('a', 1), ('a', 3)]);
    learner.refine_with_counterexample(&mut mq, &cex).unwrap();
    let state = learner.learner_state();
    assert_eq!(state.refinement_rounds, 1);
    assert_eq!(state.observation_table.experiment_suffixes().len(), 3);
}

#[test]
fn finish_hypothesis_reports_missing_extension() {
    let mut learner: ActiveArtaLearner<char, BasisMinimization> = ActiveArtaLearner::new();
    let mut mq = ArtaMembershipOracle::new(target());
    learner.refine_with_counterexample(&mut mq, &timed_word(&[('a', 1)])).unwrap();
    let result = learner.finish_hypothesis::<()>();
    assert!(matches!(result, Err(LearnError::EvidenceAutomatonBuild { .. })));
    assert_eq!(learner.learner_state().hypothesis_iterations, 0);
}
