use std::collections::HashSet;

use learn_arta::oracles::membership::ArtaMembershipOracle;
use learn_arta::time::interval::Interval;
use learn_arta::{
    build_from_cohesive_table, AfaStateId, ArtaBuilder, BasisDecomposer, BasisWords, DagStateFormula,
    DagStateFormulaManager, DelayRep, EvidenceAfaError, LocationId, ObservationTable, TimedWord,
};

/// Membership oracle whose target accepts exactly the words of even length
/// over the letters used in these tests.
fn even_length_oracle() -> ArtaMembershipOracle<char> {
    let manager = DagStateFormulaManager::new();
    let even = LocationId::new("even");
    let odd = LocationId::new("odd");
    let init = DagStateFormula::var(&manager, even.clone());
    let all = Interval::from_bounds(true, 0, false, None).unwrap();
    let mut builder = ArtaBuilder::new(init);
    builder.add_location(even.clone()).add_location(odd.clone()).add_accepting(even.clone());
    for symbol in ['a', 'b', 'x'] {
        builder.add_transition(even.clone(), symbol, all.clone(), DagStateFormula::var(&manager, odd.clone()));
        builder.add_transition(odd.clone(), symbol, all.clone(), DagStateFormula::var(&manager, even.clone()));
    }
    ArtaMembershipOracle::new(builder.build().unwrap())
}

fn timed_word(letters: &[(char, u32)]) -> TimedWord<char> {
    TimedWord::from_vec(
        letters
            .iter()
            .map(|(symbol, half_units)| (*symbol, DelayRep::from_half_units(*half_units)))
            .collect(),
    )
}

/// The table of the main scenario: suffix `a`, prefixes `b`, `a`, `bb`, `ba`.
fn scenario_table() -> ObservationTable<char> {
    let sigma_a = ('a', DelayRep::from_half_units(1));
    let sigma_b = ('b', DelayRep::from_half_units(2));
    let a_word = TimedWord::from_vec(vec![sigma_a]);
    let b_word = TimedWord::from_vec(vec![sigma_b]);
    let bb_word = TimedWord::from_vec(vec![sigma_b, sigma_b]);
    let ba_word = TimedWord::from_vec(vec![sigma_b, sigma_a]);

    let mut mq = even_length_oracle();
    let mut table: ObservationTable<char> = ObservationTable::new();
    table.insert_experiment_suffixes(a_word.clone(), &mut mq).unwrap();
    table.insert_sample_prefixes(b_word, &mut mq).unwrap();
    table.insert_sample_prefixes(a_word, &mut mq).unwrap();
    table.insert_sample_prefixes(bb_word, &mut mq).unwrap();
    table.insert_sample_prefixes(ba_word, &mut mq).unwrap();
    table
}

#[test]
fn build_from_cohesive_table_constructs_expected_evidence_afa() {
    let sigma_b = ('b', DelayRep::from_half_units(2));
    let b_word = TimedWord::from_vec(vec![sigma_b]);
    let table = scenario_table();

    let mut basis_words = BasisWords::new_with_epsilon();
    assert!(basis_words.insert(b_word));

    let evidence_afa = build_from_cohesive_table(&table, &basis_words).unwrap();
    assert_eq!(evidence_afa.basis_rows().len(), evidence_afa.representatives().len());
    assert!(evidence_afa.num_states() >= 2);

    let epsilon_column = table.experiment_suffixes().iter().position(TimedWord::is_empty).unwrap();
    for state in evidence_afa.states() {
        let expected_accepting = evidence_afa.basis_rows()[state.0].get(epsilon_column).unwrap();
        assert_eq!(evidence_afa.is_accepting(state), expected_accepting);
    }

    let mut decomposer = BasisDecomposer::new(evidence_afa.basis_rows().to_vec()).unwrap();
    let epsilon_row = table.row_of(&TimedWord::empty()).unwrap();
    let expected_init = decomposer.decompose_formula(epsilon_row).unwrap();
    assert_eq!(evidence_afa.init(), &expected_init);

    for state in evidence_afa.states() {
        let representative = &evidence_afa.representatives()[state.0];
        for sigma in evidence_afa.alphabet() {
            let mut extension = representative.clone();
            extension.push(*sigma);
            let extension_row = table.row_of(&extension).unwrap();
            let expected = decomposer.decompose_formula(extension_row).unwrap();
            let actual = evidence_afa.transition(state, sigma).unwrap();
            assert_eq!(actual, &expected);
        }
    }

    let alphabet_set: HashSet<_> = evidence_afa.alphabet().iter().cloned().collect();
    let table_letters: HashSet<_> = table.timed_letters().into_iter().collect();
    assert_eq!(alphabet_set, table_letters);
}

#[test]
fn build_returns_missing_distinct_extension_when_required_successor_is_absent() {
    let a_word = timed_word(&[('a', 1)]);
    let b_word = timed_word(&[('b', 2)]);

    let mut mq = even_length_oracle();
    let mut table: ObservationTable<char> = ObservationTable::new();
    table.insert_experiment_suffixes(a_word, &mut mq).unwrap();
    table.insert_sample_prefixes(b_word.clone(), &mut mq).unwrap();

    let mut basis_words = BasisWords::new_with_epsilon();
    assert!(basis_words.insert(b_word));

    let err = build_from_cohesive_table(&table, &basis_words).unwrap_err();
    assert!(matches!(err, EvidenceAfaError::MissingDistinctExtension { .. }));
}

#[test]
fn transition_returns_none_for_unknown_letter_or_state() {
    let sigma_a = ('a', DelayRep::from_half_units(1));
    let sigma_b = ('b', DelayRep::from_half_units(2));
    let b_word = TimedWord::from_vec(vec![sigma_b]);
    let table = scenario_table();

    let mut basis_words = BasisWords::new_with_epsilon();
    assert!(basis_words.insert(b_word));
    let evidence_afa = build_from_cohesive_table(&table, &basis_words).unwrap();

    assert!(evidence_afa.transition(AfaStateId(0), &('x', DelayRep::from_half_units(9))).is_none());
    assert!(evidence_afa.transition(AfaStateId(evidence_afa.num_states() + 1), &sigma_a).is_none());
}

#[test]
fn equal_basis_rows_share_one_state() {
    // Under the even-length target, `ε` and `bb` have equal rows, so the
    // second basis word adds no state.
    let table = scenario_table();
    let mut basis_words = BasisWords::new_with_epsilon();
    assert!(basis_words.insert(timed_word(&[('b', 2), ('b', 2)])));
    let evidence_afa = build_from_cohesive_table(&table, &basis_words).unwrap();
    assert_eq!(evidence_afa.num_states(), 1);
    assert_eq!(evidence_afa.representatives(), &[TimedWord::empty()][..]);
    assert!(evidence_afa.is_accepting(AfaStateId(0)));
}

#[test]
fn build_rejects_basis_word_outside_prefix_samples() {
    let table = scenario_table();
    let mut basis_words = BasisWords::new_with_epsilon();
    let missing = timed_word(&[('x', 4)]);
    assert!(basis_words.insert(missing.clone()));
    let err = build_from_cohesive_table(&table, &basis_words).unwrap_err();
    assert!(matches!(err, EvidenceAfaError::MissingRow { word } if word == missing));
}

#[test]
fn build_rejects_empty_basis() {
    let table = scenario_table();
    let mut basis_words = BasisWords::new_with_epsilon();
    assert!(basis_words.remove(&TimedWord::empty()));
    let err = build_from_cohesive_table(&table, &basis_words).unwrap_err();
    assert!(matches!(err, EvidenceAfaError::Decomposition(_)));
}
