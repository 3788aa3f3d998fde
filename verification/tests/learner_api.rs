use learn_arta::time::interval::Interval;
use learn_arta::{
    ActiveArtaLearner, Arta, ArtaBuilder, ArtaMembershipOracle, BasisMinimization, DagStateFormula,
    DagStateFormulaManager, DelayRep, LocationId, TimedWord, WhiteBoxEqOracle,
};

/// Accepts exactly the words of even length over `a` and `b`.
fn even_length_target() -> Arta<char> {
    let manager = DagStateFormulaManager::new();
    let even = LocationId::new("even");
    let odd = LocationId::new("odd");
    let any_delay = Interval::from_bounds(true, 0, false, None).unwrap();
    let mut builder = ArtaBuilder::new(DagStateFormula::var(&manager, even.clone()));
    builder.add_location(even.clone()).add_location(odd.clone()).add_accepting(even.clone());
    for symbol in ['a', 'b'] {
        builder.add_transition(even.clone(), symbol, any_delay, DagStateFormula::var(&manager, odd.clone()));
        builder.add_transition(odd.clone(), symbol, any_delay, DagStateFormula::var(&manager, even.clone()));
    }
    builder.build().unwrap()
}

/// Accepts the words whose first letter is read after a delay in `[1, 2)`.
fn first_delay_target() -> Arta<char> {
    let manager = DagStateFormulaManager::new();
    let q0 = LocationId::new("q0");
    let q1 = LocationId::new("q1");
    let window = Interval::from_bounds(true, 1, false, Some(2)).unwrap();
    let any_delay = Interval::from_bounds(true, 0, false, None).unwrap();
    let mut builder = ArtaBuilder::new(DagStateFormula::var(&manager, q0.clone()));
    builder.add_location(q0.clone()).add_location(q1.clone()).add_accepting(q1.clone());
    builder.add_transition(q0, 'a', window, DagStateFormula::var(&manager, q1.clone()));
    builder.add_transition(q1.clone(), 'a', any_delay, DagStateFormula::var(&manager, q1));
    builder.build().unwrap()
}

fn words_up_to(alphabet: &[char], max_half_units: u32, max_len: usize) -> Vec<TimedWord<char>> {
    let mut words = vec![TimedWord::empty()];
    let mut frontier = vec![TimedWord::empty()];
    for _ in 0..max_len {
        let mut next = Vec::new();
        for word in &frontier {
            for symbol in alphabet {
                for half_units in 0..=max_half_units {
                    let delay = if half_units % 2 == 0 {
                        DelayRep::from_integer(half_units / 2)
                    } else {
                        DelayRep::from_floor_plus_half(half_units / 2)
                    };
                    let mut letters = word.as_slice().to_vec();
                    letters.push((*symbol, delay));
                    let extended = TimedWord::from_vec(letters);
                    words.push(extended.clone());
                    next.push(extended);
                }
            }
        }
        frontier = next;
    }
    words
}

#[test]
fn learn_returns_a_hypothesis_equivalent_to_the_target() {
    let target = even_length_target();
    let mut mq = ArtaMembershipOracle::new(target.clone());
    let mut eq = WhiteBoxEqOracle::try_new(target.clone(), vec!['a', 'b']).unwrap();
    let mut learner: ActiveArtaLearner<char, BasisMinimization> = ActiveArtaLearner::new();

    let hypothesis = learner
        .learn(&mut mq, &mut eq, 50, 1000)
        .expect("exact oracles never fail")
        .expect("the bounds are large enough");

    for word in words_up_to(&['a', 'b'], 3, 3) {
        assert_eq!(hypothesis.accepts(&word), target.accepts(&word));
    }
    assert_eq!(eq.find_counterexample(&hypothesis).unwrap(), None);
}

#[test]
fn learn_refines_until_the_delay_window_is_found() {
    let target = first_delay_target();
    let mut mq = ArtaMembershipOracle::new(target.clone());
    let mut eq = WhiteBoxEqOracle::try_new(target.clone(), vec!['a']).unwrap();
    let mut learner: ActiveArtaLearner<char, BasisMinimization> = ActiveArtaLearner::new();

    let hypothesis = learner
        .learn(&mut mq, &mut eq, 50, 1000)
        .expect("exact oracles never fail")
        .expect("the bounds are large enough");

    for word in words_up_to(&['a'], 6, 2) {
        assert_eq!(hypothesis.accepts(&word), target.accepts(&word));
    }
    assert!(learner.learner_state().refinement_rounds >= 1);
}

#[test]
fn learn_with_no_rounds_returns_none() {
    let target = even_length_target();
    let mut mq = ArtaMembershipOracle::new(target.clone());
    let mut eq = WhiteBoxEqOracle::try_new(target, vec!['a', 'b']).unwrap();
    let mut learner: ActiveArtaLearner<char, BasisMinimization> = ActiveArtaLearner::new();

    assert!(learner.learn(&mut mq, &mut eq, 0, 1000).expect("exact oracles never fail").is_none());
    assert_eq!(learner.learner_state().hypothesis_iterations, 0);
}

#[test]
fn build_hypothesis_counts_the_iteration() {
    let target = even_length_target();
    let mut mq = ArtaMembershipOracle::new(target.clone());
    let mut learner: ActiveArtaLearner<char, BasisMinimization> = ActiveArtaLearner::new();

    let hypothesis = learner.build_hypothesis(&mut mq, 1000).expect("exact oracle never fails");
    assert!(hypothesis.is_some());
    assert_eq!(learner.learner_state().hypothesis_iterations, 1);
    assert_eq!(learner.learner_state().refinement_rounds, 0);
}

#[test]
fn state_mut_changes_the_learner_state() {
    let mut learner: ActiveArtaLearner<char, BasisMinimization> = ActiveArtaLearner::new();
    learner.state_mut().refinement_rounds = 7;
    assert_eq!(learner.learner_state().refinement_rounds, 7);
}
