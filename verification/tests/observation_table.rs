use std::collections::HashSet;

use learn_arta::oracles::membership::ArtaMembershipOracle;
use learn_arta::time::interval::Interval;
use learn_arta::{
    ArtaBuilder, DagStateFormula, DagStateFormulaManager, DelayRep, LocationId, ObservationTable,
    TableError, TimedWord,
};

/// Membership oracle whose target accepts exactly the words of even length
/// over the letters used in these tests.
fn even_length_oracle() -> ArtaMembershipOracle<char> {
    let manager = DagStateFormulaManager::new();
    let even = LocationId::new("even");
    let odd = LocationId::new("odd");
    let init = DagStateFormula::var(&manager, even.clone());
    let all = Interval::from_bounds(true, 0, false, None).unwrap();
    let mut builder = ArtaBuilder::new(init);
    builder.add_location(even.clone()).add_location(odd.clone()).add_accepting(even.clone());
    for symbol in ['a', 'b', 'c', 'x'] {
        builder.add_transition(even.clone(), symbol, all.clone(), DagStateFormula::var(&manager, odd.clone()));
        builder.add_transition(odd.clone(), symbol, all.clone(), DagStateFormula::var(&manager, even.clone()));
    }
    ArtaMembershipOracle::new(builder.build().unwrap())
}

fn timed_word(letters: &[(char, u32)]) -> TimedWord<char> {
    TimedWord::from_vec(
        letters
            .iter()
            .map(|(symbol, half_units)| (*symbol, DelayRep::from_half_units(*half_units)))
            .collect(),
    )
}

#[test]
fn ensure_in_s_makes_prefix_closed_set() {
    let mut table = ObservationTable::new();
    let mut mq = even_length_oracle();

    let word = timed_word(&[('a', 2), ('b', 3), ('c', 4)]);
    table.insert_sample_prefixes(word.clone(), &mut mq).unwrap();

    let expected = word.prefixes();
    assert_eq!(table.sample_prefixes(), expected.as_slice());
    assert_eq!(table.sample_prefixes().len(), 4);
    assert_eq!(table.sample_prefixes().iter().collect::<HashSet<_>>().len(), table.sample_prefixes().len());
    assert!(table.is_prefix_closed());
    assert!(table.validate_invariants().is_ok());
}

#[test]
fn ensure_in_e_makes_suffix_closed_set() {
    let mut table = ObservationTable::new();
    let mut mq = even_length_oracle();

    let word = timed_word(&[('a', 2), ('b', 3), ('c', 4)]);
    table.insert_experiment_suffixes(word.clone(), &mut mq).unwrap();

    let mut expected = vec![TimedWord::empty()];
    expected.extend(word.suffixes().into_iter().filter(|suffix| !suffix.is_empty()));

    assert_eq!(table.experiment_suffixes(), expected.as_slice());
    assert_eq!(table.experiment_suffixes().len(), 4);
    assert_eq!(
        table.experiment_suffixes().iter().collect::<HashSet<_>>().len(),
        table.experiment_suffixes().len()
    );
    assert!(table.is_suffix_closed());
    assert!(table.validate_invariants().is_ok());
}

#[test]
fn table_cells_are_mq_filled_for_s_concat_e() {
    let mut table = ObservationTable::new();
    let mut mq = even_length_oracle();

    let s_word = timed_word(&[('a', 2), ('b', 3), ('c', 4)]);
    let e_word = timed_word(&[('b', 1), ('a', 2), ('b', 5)]);

    table.insert_sample_prefixes(s_word, &mut mq).unwrap();
    table.insert_experiment_suffixes(e_word, &mut mq).unwrap();

    for row in table.rows_of_all_sample_prefixes() {
        assert_eq!(row.len(), table.experiment_suffixes().len());
    }

    for (row_idx, prefix) in table.sample_prefixes().iter().enumerate() {
        let row = table.try_row(row_idx).unwrap();
        for (col_idx, suffix) in table.experiment_suffixes().iter().enumerate() {
            let expected = prefix.concat(suffix).len() % 2 == 0;
            assert_eq!(row.get(col_idx), Some(expected));
        }
    }

    assert!(table.validate_invariants().is_ok());
}

#[test]
fn duplicate_inserts_are_idempotent_and_order_stable() {
    let s_word = timed_word(&[('a', 2), ('b', 3), ('c', 4)]);
    let e_word = timed_word(&[('b', 1), ('a', 2), ('b', 5)]);

    let mut table_a = ObservationTable::new();
    let mut mq_a = even_length_oracle();
    table_a.insert_sample_prefixes(s_word.clone(), &mut mq_a).unwrap();
    table_a.insert_experiment_suffixes(e_word.clone(), &mut mq_a).unwrap();
    let s_len_before = table_a.sample_prefixes().len();
    let e_len_before = table_a.experiment_suffixes().len();
    table_a.insert_sample_prefixes(s_word.clone(), &mut mq_a).unwrap();
    table_a.insert_experiment_suffixes(e_word.clone(), &mut mq_a).unwrap();
    assert_eq!(table_a.sample_prefixes().len(), s_len_before);
    assert_eq!(table_a.experiment_suffixes().len(), e_len_before);

    let mut table_b = ObservationTable::new();
    let mut mq_b = even_length_oracle();
    table_b.insert_experiment_suffixes(e_word.clone(), &mut mq_b).unwrap();
    table_b.insert_sample_prefixes(s_word.clone(), &mut mq_b).unwrap();

    let s_a: HashSet<_> = table_a.sample_prefixes().iter().cloned().collect();
    let s_b: HashSet<_> = table_b.sample_prefixes().iter().cloned().collect();
    let e_a: HashSet<_> = table_a.experiment_suffixes().iter().cloned().collect();
    let e_b: HashSet<_> = table_b.experiment_suffixes().iter().cloned().collect();

    assert_eq!(s_a, s_b);
    assert_eq!(e_a, e_b);

    assert!(table_a
        .rows_of_all_sample_prefixes()
        .iter()
        .all(|row| row.len() == table_a.experiment_suffixes().len()));
    assert!(table_b
        .rows_of_all_sample_prefixes()
        .iter()
        .all(|row| row.len() == table_b.experiment_suffixes().len()));
    assert!(table_a.validate_invariants().is_ok());
    assert!(table_b.validate_invariants().is_ok());
}

#[test]
fn rows_of_indices_is_fallible_for_oob() {
    let table: ObservationTable<char> = ObservationTable::new();

    let rows = table.rows_of_indices(&[0]).unwrap();
    assert_eq!(rows.len(), 1);

    assert_eq!(table.rows_of_indices(&[1]), Err(TableError::IndexOutOfBounds { index: 1, len: 1 }));
}

#[test]
fn contains_sample_prefix_tracks_inserted_words() {
    let mut table = ObservationTable::new();
    let mut mq = even_length_oracle();
    let word = timed_word(&[('a', 2), ('b', 3)]);
    let missing = timed_word(&[('c', 4)]);

    assert!(table.contains_sample_prefix(&TimedWord::empty()));
    assert!(!table.contains_sample_prefix(&word));
    assert!(!table.contains_sample_prefix(&missing));

    table.insert_sample_prefixes(word.clone(), &mut mq).unwrap();

    for prefix in word.prefixes() {
        assert!(table.contains_sample_prefix(&prefix));
    }
    assert!(!table.contains_sample_prefix(&missing));
}

#[test]
fn ordered_timed_letters_uses_first_occurrence_across_table_words() {
    let mut table = ObservationTable::new();
    let mut mq = even_length_oracle();
    let sample_word = timed_word(&[('a', 2), ('b', 3)]);
    let experiment_word = timed_word(&[('b', 3), ('c', 4), ('a', 2)]);

    table.insert_sample_prefixes(sample_word.clone(), &mut mq).unwrap();
    table.insert_experiment_suffixes(experiment_word, &mut mq).unwrap();

    assert_eq!(
        table.ordered_timed_letters(),
        vec![
            ('a', DelayRep::from_half_units(2)),
            ('b', DelayRep::from_half_units(3)),
            ('c', DelayRep::from_half_units(4)),
        ]
    );
}

#[test]
fn ordered_experiment_timed_letters_uses_only_suffix_experiments() {
    let mut table = ObservationTable::new();
    let mut mq = even_length_oracle();
    let sample_word = timed_word(&[('x', 9), ('a', 2)]);
    let experiment_word = timed_word(&[('b', 3), ('c', 4), ('b', 3), ('a', 2)]);

    table.insert_sample_prefixes(sample_word, &mut mq).unwrap();
    table.insert_experiment_suffixes(experiment_word, &mut mq).unwrap();

    assert_eq!(
        table.ordered_experiment_timed_letters(),
        vec![
            ('b', DelayRep::from_half_units(3)),
            ('c', DelayRep::from_half_units(4)),
            ('a', DelayRep::from_half_units(2)),
        ]
    );
}

#[test]
fn row_of_finds_rows_of_samples_only() {
    let mut table = ObservationTable::new();
    let mut mq = even_length_oracle();
    table.insert_sample_prefixes(timed_word(&[('a', 0)]), &mut mq).unwrap();
    assert_eq!(table.row_of(&TimedWord::empty()).unwrap().to_string(), "1");
    assert_eq!(table.row_of(&timed_word(&[('a', 0)])).unwrap().to_string(), "0");
    assert!(table.row_of(&timed_word(&[('a', 1)])).is_none());
}
