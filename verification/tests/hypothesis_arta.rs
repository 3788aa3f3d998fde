use learn_arta::oracles::membership::ArtaMembershipOracle;
use learn_arta::time::interval::Interval;
use learn_arta::{
    build_from_cohesive_table, convert_basis_formula_to_dag_state_formula, evidence_state_to_location_id,
    AfaStateId, ArtaBuilder, BasisWords, DagStateFormula, DagStateFormulaManager, DelayRep, LocationId,
    ObservationTable, TimedWord,
};

/// Membership oracle whose target accepts the words of even length over the
/// letters used here.
fn even_length_oracle() -> ArtaMembershipOracle<char> {
    let manager = DagStateFormulaManager::new();
    let even = LocationId::new("even");
    let odd = LocationId::new("odd");
    let all = Interval::from_bounds(true, 0, false, None).unwrap();
    let mut builder = ArtaBuilder::new(DagStateFormula::var(&manager, even.clone()));
    builder.add_location(even.clone()).add_location(odd.clone()).add_accepting(even.clone());
    for symbol in ['a', 'b'] {
        builder.add_transition(even.clone(), symbol, all, DagStateFormula::var(&manager, odd.clone()));
        builder.add_transition(odd.clone(), symbol, all, DagStateFormula::var(&manager, even.clone()));
    }
    ArtaMembershipOracle::new(builder.build().unwrap())
}

/// Membership oracle whose target accepts every word over `a`.
fn always_true_oracle() -> ArtaMembershipOracle<char> {
    let manager = DagStateFormulaManager::new();
    let q = LocationId::new("q");
    let all = Interval::from_bounds(true, 0, false, None).unwrap();
    let mut builder = ArtaBuilder::new(DagStateFormula::var(&manager, q.clone()));
    builder.add_location(q.clone()).add_accepting(q.clone());
    builder.add_transition(q.clone(), 'a', all, DagStateFormula::var(&manager, q.clone()));
    ArtaMembershipOracle::new(builder.build().unwrap())
}

fn timed_word(letters: &[(char, u32)]) -> TimedWord<char> {
    TimedWord::from_vec(
        letters
            .iter()
            .map(|(symbol, half_units)| (*symbol, DelayRep::from_half_units(*half_units)))
            .collect(),
    )
}

#[test]
fn to_hypothesis_arta_preserves_evidence_transitions_on_phi() {
    let sigma_a = ('a', DelayRep::from_half_units(1));
    let sigma_b = ('b', DelayRep::from_half_units(2));
    let a_word = TimedWord::from_vec(vec![sigma_a]);
    let b_word = TimedWord::from_vec(vec![sigma_b]);
    let bb_word = TimedWord::from_vec(vec![sigma_b, sigma_b]);
    let ba_word = TimedWord::from_vec(vec![sigma_b, sigma_a]);

    let mut mq = even_length_oracle();
    let mut table: ObservationTable<char> = ObservationTable::new();
    table.insert_experiment_suffixes(a_word.clone(), &mut mq).unwrap();
    table.insert_sample_prefixes(b_word.clone(), &mut mq).unwrap();
    table.insert_sample_prefixes(a_word.clone(), &mut mq).unwrap();
    table.insert_sample_prefixes(bb_word, &mut mq).unwrap();
    table.insert_sample_prefixes(ba_word, &mut mq).unwrap();

    let mut basis_words = BasisWords::new_with_epsilon();
    assert!(basis_words.insert(b_word));

    let evidence = build_from_cohesive_table(&table, &basis_words).unwrap();
    let mgr = DagStateFormulaManager::new();
    let hypothesis = evidence.to_hypothesis_arta(&mgr).unwrap();

    for state in evidence.states() {
        let source = evidence_state_to_location_id(state);
        for sigma in evidence.alphabet() {
            let expected_basis = evidence.transition(state, sigma).unwrap();
            let expected = convert_basis_formula_to_dag_state_formula(expected_basis, &mgr);
            let actual = hypothesis.step_location(source.clone(), &sigma.0, sigma.1);
            assert_eq!(actual, expected);
        }
    }
}

#[test]
fn to_hypothesis_arta_compresses_consecutive_equal_targets() {
    let mut mq = always_true_oracle();
    let mut table: ObservationTable<char> = ObservationTable::new();
    table.insert_sample_prefixes(timed_word(&[('a', 1)]), &mut mq).unwrap();
    table.insert_sample_prefixes(timed_word(&[('a', 3)]), &mut mq).unwrap();
    table.insert_sample_prefixes(timed_word(&[('a', 5)]), &mut mq).unwrap();

    let basis_words = BasisWords::new_with_epsilon();
    let evidence = build_from_cohesive_table(&table, &basis_words).unwrap();
    let mgr = DagStateFormulaManager::new();
    let hypothesis = evidence.to_hypothesis_arta(&mgr).unwrap();

    let raw_delay_count = evidence.alphabet().iter().filter(|(symbol, _)| *symbol == 'a').count();
    let source = evidence_state_to_location_id(AfaStateId(0));
    let transitions = hypothesis.outgoing(&source, &'a').unwrap();

    assert!(transitions.len() < raw_delay_count);
    assert_eq!(transitions.len(), 1);
}

#[test]
fn hypothesis_locations_and_acceptance_follow_evidence_states() {
    let mut mq = even_length_oracle();
    let mut table: ObservationTable<char> = ObservationTable::new();
    let a_word = timed_word(&[('a', 2)]);
    table.insert_experiment_suffixes(a_word.clone(), &mut mq).unwrap();
    table.insert_sample_prefixes(timed_word(&[('a', 2), ('a', 2)]), &mut mq).unwrap();
    let mut basis_words = BasisWords::new_with_epsilon();
    assert!(basis_words.insert(a_word));
    let evidence = build_from_cohesive_table(&table, &basis_words).unwrap();
    assert_eq!(evidence.num_states(), 2);
    let hypothesis = evidence.to_hypothesis_arta(&DagStateFormulaManager::new()).unwrap();
    let names: Vec<String> = hypothesis.locations().iter().map(|l| l.name().to_string()).collect();
    assert_eq!(names, vec!["q0".to_string(), "q1".to_string()]);
    let accepting: Vec<String> = hypothesis.accepting().iter().map(|l| l.name().to_string()).collect();
    assert_eq!(accepting, vec!["q0".to_string()]);
    // The hypothesis reads like the even-length target on the table words.
    assert!(hypothesis.accepts(&TimedWord::empty()));
    assert!(!hypothesis.accepts(&timed_word(&[('a', 2)])));
    assert!(hypothesis.accepts(&timed_word(&[('a', 2), ('a', 2)])));
}
