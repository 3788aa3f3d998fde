use learn_arta::time::interval::Interval;
use learn_arta::{
    Arta, ArtaBuilder, DagStateFormula, DagStateFormulaManager, DelayRep, LocationId, TimedWord,
    WhiteBoxEqOracle,
};

fn rejecting_hypothesis() -> Arta<char> {
    let mgr = DagStateFormulaManager::new();
    let q0 = LocationId::new("q0");
    let init = DagStateFormula::var(&mgr, q0.clone());
    let mut builder = ArtaBuilder::new(init);
    builder.add_location(q0);
    builder.build().expect("rejecting hypothesis should build")
}

fn all_delays_guard() -> Interval {
    Interval::from_bounds(true, 0, false, None).expect("[0, ∞) must be valid")
}

fn alternating_one_step_accepting_target() -> Arta<char> {
    let mgr = DagStateFormulaManager::new();
    let q0 = LocationId::new("q0");
    let q1 = LocationId::new("q1");
    let q2 = LocationId::new("q2");
    let init = DagStateFormula::var(&mgr, q0.clone());
    let mut builder = ArtaBuilder::new(init);
    builder
        .add_location(q0.clone())
        .add_location(q1.clone())
        .add_location(q2.clone())
        .add_accepting(q1.clone())
        .add_transition(
            q0,
            'a',
            all_delays_guard(),
            DagStateFormula::or(
                &mgr,
                vec![
                    DagStateFormula::var(&mgr, q1),
                    DagStateFormula::var(&mgr, q2),
                ],
            ),
        );
    builder
        .build()
        .expect("alternating one-step target should build")
}

/// Accepts exactly the words with at least two letters, the second one read
/// after a delay in `[1, 1]`.
fn second_letter_target() -> Arta<char> {
    let mgr = DagStateFormulaManager::new();
    let q0 = LocationId::new("q0");
    let q1 = LocationId::new("q1");
    let q2 = LocationId::new("q2");
    let init = DagStateFormula::var(&mgr, q0.clone());
    let mut builder = ArtaBuilder::new(init);
    builder
        .add_location(q0.clone())
        .add_location(q1.clone())
        .add_location(q2.clone())
        .add_accepting(q2.clone())
        .add_transition(
            q0,
            'a',
            all_delays_guard(),
            DagStateFormula::var(&mgr, q1.clone()),
        )
        .add_transition(
            q1,
            'a',
            Interval::closed(1, 1).expect("[1, 1] must be valid"),
            DagStateFormula::var(&mgr, q2.clone()),
        )
        .add_transition(
            q2.clone(),
            'a',
            all_delays_guard(),
            DagStateFormula::var(&mgr, q2),
        );
    builder.build().expect("second-letter target should build")
}

fn delay_representatives(max_guard_constant: u32) -> Vec<DelayRep> {
    let mut reps = Vec::with_capacity(max_guard_constant as usize * 2 + 2);
    for integer in 0..=max_guard_constant {
        reps.push(DelayRep::from_integer(integer));
    }
    for floor in 0..=max_guard_constant {
        reps.push(DelayRep::from_floor_plus_half(floor));
    }
    reps
}

fn enumerate_words(
    alphabet: &[char],
    delays: &[DelayRep],
    max_depth: usize,
) -> Vec<TimedWord<char>> {
    let mut words = vec![TimedWord::empty()];
    let mut frontier = vec![TimedWord::empty()];

    for _ in 0..max_depth {
        let mut next_frontier = Vec::new();
        for word in frontier {
            for symbol in alphabet {
                for delay in delays {
                    let mut letters = word.as_slice().to_vec();
                    letters.push((*symbol, *delay));
                    let extended = TimedWord::from_vec(letters);
                    words.push(extended.clone());
                    next_frontier.push(extended);
                }
            }
        }
        frontier = next_frontier;
    }

    words
}

#[test]
fn whitebox_counterexample_always_witnesses_a_language_mismatch() {
    let target = alternating_one_step_accepting_target();
    let hypothesis = rejecting_hypothesis();
    let mut oracle = WhiteBoxEqOracle::try_new(target.clone(), vec!['a'])
        .expect("white-box oracle should build");

    let counterexample = oracle
        .find_counterexample(&hypothesis)
        .expect("white-box EQ should succeed")
        .expect("mismatch should yield a counterexample");

    assert_ne!(
        target.accepts(&counterexample),
        hypothesis.accepts(&counterexample)
    );
}

#[test]
fn whitebox_none_agrees_with_bounded_exhaustive_search() {
    let target = alternating_one_step_accepting_target();
    let hypothesis = target.clone();
    let alphabet = vec!['a'];
    let mut oracle = WhiteBoxEqOracle::try_new(target.clone(), alphabet.clone())
        .expect("white-box oracle should build");

    let counterexample = oracle
        .find_counterexample(&hypothesis)
        .expect("white-box EQ should succeed");
    assert_eq!(counterexample, None);

    let max_guard_constant = target
        .max_guard_constant()
        .max(hypothesis.max_guard_constant());
    let representatives = delay_representatives(max_guard_constant);
    for word in enumerate_words(&alphabet, &representatives, 3) {
        assert_eq!(target.accepts(&word), hypothesis.accepts(&word));
    }
}

#[test]
fn whitebox_counterexample_is_a_shortest_mismatch() {
    let target = second_letter_target();
    let hypothesis = rejecting_hypothesis();
    let alphabet = vec!['a'];
    let mut oracle = WhiteBoxEqOracle::try_new(target.clone(), alphabet.clone())
        .expect("white-box oracle should build");

    let counterexample = oracle
        .find_counterexample(&hypothesis)
        .expect("white-box EQ should succeed")
        .expect("mismatch should yield a counterexample");

    assert_eq!(counterexample.len(), 2);
    assert_ne!(
        target.accepts(&counterexample),
        hypothesis.accepts(&counterexample)
    );
    let representatives = delay_representatives(2);
    for word in enumerate_words(&alphabet, &representatives, 1) {
        assert_eq!(target.accepts(&word), hypothesis.accepts(&word));
    }
}

#[test]
fn whitebox_none_when_hypothesis_accepts_the_same_language() {
    let target = second_letter_target();
    let hypothesis = second_letter_target();
    let alphabet = vec!['a'];
    let mut oracle = WhiteBoxEqOracle::try_new(target.clone(), alphabet.clone())
        .expect("white-box oracle should build");

    assert_eq!(
        oracle
            .find_counterexample(&hypothesis)
            .expect("white-box EQ should succeed"),
        None
    );
    let representatives = delay_representatives(2);
    for word in enumerate_words(&alphabet, &representatives, 3) {
        assert_eq!(target.accepts(&word), hypothesis.accepts(&word));
    }
}
