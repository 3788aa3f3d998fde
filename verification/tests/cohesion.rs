use std::sync::atomic::{AtomicUsize, Ordering};

use learn_arta::oracles::membership::ArtaMembershipOracle;
use learn_arta::time::interval::Interval;
use learn_arta::{
    apply_fix, find_not_basis_closed, find_not_distinct, find_not_evidence_closed, find_redundant_basis_word,
    make_cohesive_step, next_cohesion_fix, ArtaBuilder, BasisMinimization, BasisMinimizationError, BasisMinimizer,
    BasisReductionPhase, BasisWords, CohesionCheckError, CohesionFix, DagStateFormula, DagStateFormulaManager,
    DelayRep, LocationId, ObservationTable, TimedWord,
};

/// The guard that admits exactly the delay of `half_units` half time units.
fn delay_guard(half_units: u32) -> Interval {
    if half_units % 2 == 0 {
        Interval::closed(half_units / 2, half_units / 2).unwrap()
    } else {
        Interval::open(half_units / 2, half_units / 2 + 1).unwrap()
    }
}

/// Membership oracle whose target accepts exactly `accepted`: a trie of the
/// words whose leaves and inner nodes accept when they end an accepted word.
fn set_oracle(accepted: &[TimedWord<char>]) -> ArtaMembershipOracle<char> {
    let manager = DagStateFormulaManager::new();
    let mut nodes: Vec<Vec<(char, u32)>> = vec![Vec::new()];
    let mut edges: Vec<(usize, char, u32, usize)> = Vec::new();
    let mut accepting: Vec<usize> = Vec::new();
    for word in accepted {
        let mut current = 0usize;
        let mut path: Vec<(char, u32)> = Vec::new();
        for (symbol, delay) in word.iter() {
            path.push((*symbol, delay.half_units()));
            let next = match nodes.iter().position(|p| p == &path) {
                Some(n) => n,
                None => {
                    nodes.push(path.clone());
                    let n = nodes.len() - 1;
                    edges.push((current, *symbol, delay.half_units(), n));
                    n
                }
            };
            current = next;
        }
        accepting.push(current);
    }
    let location = |n: usize| LocationId::new(&format!("n{n}"));
    let mut builder = ArtaBuilder::new(DagStateFormula::var(&manager, location(0)));
    for n in 0..nodes.len() {
        builder.add_location(location(n));
    }
    for n in accepting {
        builder.add_accepting(location(n));
    }
    for (from, symbol, half_units, to) in edges {
        builder.add_transition(location(from), symbol, delay_guard(half_units), DagStateFormula::var(&manager, location(to)));
    }
    ArtaMembershipOracle::new(builder.build().unwrap())
}

fn timed_word(letters: &[(char, u32)]) -> TimedWord<char> {
    TimedWord::from_vec(
        letters
            .iter()
            .map(|(symbol, half_units)| (*symbol, DelayRep::from_half_units(*half_units)))
            .collect(),
    )
}

#[derive(Debug)]
struct TrackingMinimizer {
    phase: BasisReductionPhase,
    selected_basis: Option<Vec<TimedWord<char>>>,
    calls: AtomicUsize,
}

impl TrackingMinimizer {
    fn new(phase: BasisReductionPhase, selected_basis: Option<Vec<TimedWord<char>>>) -> Self {
        Self { phase, selected_basis, calls: AtomicUsize::new(0) }
    }
}

impl BasisMinimizer<char> for TrackingMinimizer {
    fn phase(&self) -> BasisReductionPhase {
        self.phase
    }

    fn minimize_basis(
        &self,
        _table: &ObservationTable<char>,
        _basis_words: &BasisWords<char>,
    ) -> Result<Option<Vec<TimedWord<char>>>, BasisMinimizationError> {
        self.calls.fetch_add(1, Ordering::Relaxed);
        Ok(self.selected_basis.clone())
    }
}

#[test]
fn p_closedness_fix_is_found_first() {
    let e1 = timed_word(&[('e', 1)]);
    let s1 = timed_word(&[('s', 2)]);
    let s1e1 = s1.concat(&e1);

    let mut mq = set_oracle(&[TimedWord::empty(), s1e1]);
    let mut table: ObservationTable<char> = ObservationTable::new();
    table.insert_experiment_suffixes(e1, &mut mq).unwrap();
    table.insert_sample_prefixes(s1.clone(), &mut mq).unwrap();

    let basis_words = BasisWords::new_with_epsilon();
    assert_eq!(find_not_basis_closed(&table, &basis_words), Some(s1.clone()));

    let fix = next_cohesion_fix(&table, &basis_words).unwrap();
    assert_eq!(fix, Some(CohesionFix::AddBasisWord(s1)));
}

#[test]
fn minimality_fix_removes_redundant_p() {
    let e1 = timed_word(&[('e', 1)]);
    let p1 = timed_word(&[('p', 3)]);

    let mut mq = set_oracle(&[TimedWord::empty()]);
    let mut table: ObservationTable<char> = ObservationTable::new();
    table.insert_experiment_suffixes(e1, &mut mq).unwrap();
    table.insert_sample_prefixes(p1.clone(), &mut mq).unwrap();

    let mut basis_words = BasisWords::new_with_epsilon();
    assert!(basis_words.insert(p1.clone()));

    assert_eq!(find_not_basis_closed(&table, &basis_words), None);
    assert_eq!(find_redundant_basis_word(&table, &basis_words), Some(p1.clone()));

    let fix = next_cohesion_fix(&table, &basis_words).unwrap();
    assert_eq!(fix, Some(CohesionFix::RemoveBasisWord(p1)));
}

#[test]
fn epsilon_is_never_selected_for_minimality_when_evidence_is_still_missing() {
    let p_word = timed_word(&[('a', 6)]);
    let expected = p_word.concat(&p_word);

    let mut mq = set_oracle(&[TimedWord::empty(), p_word.clone()]);
    let mut table: ObservationTable<char> = ObservationTable::new();
    table.insert_experiment_suffixes(p_word.clone(), &mut mq).unwrap();
    table.insert_sample_prefixes(p_word.clone(), &mut mq).unwrap();

    let mut basis_words = BasisWords::new_with_epsilon();
    assert!(basis_words.insert(p_word.clone()));

    assert_eq!(find_not_basis_closed(&table, &basis_words), None);
    assert_eq!(find_redundant_basis_word(&table, &basis_words), None);
    assert_eq!(find_not_evidence_closed(&table, &basis_words), Some(expected.clone()));
    assert_eq!(next_cohesion_fix(&table, &basis_words).unwrap(), Some(CohesionFix::AddSamplePrefix(expected.clone())));

    assert!(make_cohesive_step(&mut table, &mut basis_words, &BasisMinimization::Greedy, &mut mq).unwrap());
    assert!(table.sample_prefixes().iter().any(|word| word == &expected));
}

#[test]
fn evidence_closedness_fix_adds_basis_plus_evidence_letter() {
    let e = timed_word(&[('e', 3)]);

    let mut mq = set_oracle(&[TimedWord::empty()]);
    let mut table: ObservationTable<char> = ObservationTable::new();
    table.insert_experiment_suffixes(e.clone(), &mut mq).unwrap();

    let basis_words = BasisWords::new_with_epsilon();

    assert_eq!(find_not_basis_closed(&table, &basis_words), None);
    assert_eq!(find_redundant_basis_word(&table, &basis_words), None);
    assert_eq!(find_not_evidence_closed(&table, &basis_words), Some(e.clone()));

    let fix = next_cohesion_fix(&table, &basis_words).unwrap();
    assert_eq!(fix, Some(CohesionFix::AddSamplePrefix(e)));
}

#[test]
fn evidence_closedness_uses_letters_from_suffixes_not_full_suffixes() {
    let ab_word = timed_word(&[('a', 1), ('b', 2)]);
    let a_word = timed_word(&[('a', 1)]);
    let b_word = timed_word(&[('b', 2)]);

    let mut mq = set_oracle(&[TimedWord::empty()]);
    let mut table: ObservationTable<char> = ObservationTable::new();
    table.insert_experiment_suffixes(ab_word.clone(), &mut mq).unwrap();

    let basis_words = BasisWords::new_with_epsilon();

    assert_eq!(find_not_basis_closed(&table, &basis_words), None);
    assert_eq!(find_redundant_basis_word(&table, &basis_words), None);
    assert_eq!(find_not_evidence_closed(&table, &basis_words), Some(a_word));

    let first_fix = next_cohesion_fix(&table, &basis_words).unwrap();
    assert_eq!(first_fix, Some(CohesionFix::AddSamplePrefix(timed_word(&[('a', 1)]))));
    assert_ne!(first_fix, Some(CohesionFix::AddSamplePrefix(ab_word.clone())));

    table.insert_sample_prefixes(timed_word(&[('a', 1)]), &mut mq).unwrap();

    assert_eq!(find_not_evidence_closed(&table, &basis_words), Some(b_word));
    assert_ne!(find_not_evidence_closed(&table, &basis_words), Some(ab_word));
}

#[test]
fn distinctness_fix_adds_p_concat_sigma() {
    let p_word = timed_word(&[('a', 1)]);
    let expected = p_word.concat(&p_word);

    let mut mq = set_oracle(&[p_word.clone()]);
    let mut table: ObservationTable<char> = ObservationTable::new();
    table.insert_sample_prefixes(p_word.clone(), &mut mq).unwrap();

    let mut basis_words = BasisWords::new_with_epsilon();
    assert!(basis_words.remove(&TimedWord::empty()));
    assert!(basis_words.insert(p_word.clone()));

    assert_eq!(find_not_basis_closed(&table, &basis_words), None);
    assert_eq!(find_redundant_basis_word(&table, &basis_words), None);
    assert_eq!(find_not_evidence_closed(&table, &basis_words), None);
    assert_eq!(find_not_distinct(&table, &basis_words), Some(expected.clone()));

    let fix = next_cohesion_fix(&table, &basis_words).unwrap();
    assert_eq!(fix, Some(CohesionFix::AddSamplePrefix(expected)));
}

#[test]
fn make_cohesive_step_eventually_reaches_fixpoint() {
    let e = timed_word(&[('e', 5)]);

    let mut mq = set_oracle(&[TimedWord::empty()]);
    let mut table: ObservationTable<char> = ObservationTable::new();
    table.insert_experiment_suffixes(e, &mut mq).unwrap();
    let mut basis_words = BasisWords::new_with_epsilon();

    let mut saw_change = false;
    let mut terminated = false;
    for _ in 0..50 {
        let changed = make_cohesive_step(&mut table, &mut basis_words, &BasisMinimization::Greedy, &mut mq).unwrap();
        if changed {
            saw_change = true;
            continue;
        }
        terminated = true;
        break;
    }

    assert!(saw_change);
    assert!(terminated);
    assert_eq!(next_cohesion_fix(&table, &basis_words).unwrap(), None);
}

#[test]
fn custom_minimizer_can_run_before_additive_repairs() {
    let p_word = timed_word(&[('a', 6)]);
    let expected_missing_sample = p_word.concat(&p_word);

    let mut mq = set_oracle(&[TimedWord::empty(), p_word.clone()]);
    let mut table: ObservationTable<char> = ObservationTable::new();
    table.insert_experiment_suffixes(p_word.clone(), &mut mq).unwrap();
    table.insert_sample_prefixes(p_word.clone(), &mut mq).unwrap();

    let mut basis_words = BasisWords::new_with_epsilon();
    assert!(basis_words.insert(p_word.clone()));

    let custom_minimizer =
        TrackingMinimizer::new(BasisReductionPhase::BeforeAdditiveRepairs, Some(vec![TimedWord::empty()]));

    let changed = make_cohesive_step(&mut table, &mut basis_words, &custom_minimizer, &mut mq).unwrap();

    assert!(changed);
    assert_eq!(custom_minimizer.calls.load(Ordering::Relaxed), 1);
    assert!(!basis_words.contains(&p_word));
    assert!(!table.sample_prefixes().iter().any(|word| word == &expected_missing_sample));
}

#[test]
fn custom_minimizer_can_defer_until_after_additive_repairs() {
    let p_word = timed_word(&[('a', 6)]);
    let expected_sample = p_word.concat(&p_word);

    let mut mq = set_oracle(&[TimedWord::empty(), p_word.clone()]);
    let mut table: ObservationTable<char> = ObservationTable::new();
    table.insert_experiment_suffixes(p_word.clone(), &mut mq).unwrap();
    table.insert_sample_prefixes(p_word.clone(), &mut mq).unwrap();

    let mut basis_words = BasisWords::new_with_epsilon();
    assert!(basis_words.insert(p_word.clone()));

    let custom_minimizer =
        TrackingMinimizer::new(BasisReductionPhase::AfterAdditiveRepairs, Some(vec![TimedWord::empty()]));

    let changed = make_cohesive_step(&mut table, &mut basis_words, &custom_minimizer, &mut mq).unwrap();

    assert!(changed);
    assert_eq!(custom_minimizer.calls.load(Ordering::Relaxed), 0);
    assert!(basis_words.contains(&TimedWord::empty()));
    assert!(basis_words.contains(&p_word));
    assert!(table.sample_prefixes().iter().any(|word| word == &expected_sample));
}

#[test]
fn greedy_step_removes_redundant_basis_word_and_reports_change() {
    let e1 = timed_word(&[('e', 1)]);
    let p1 = timed_word(&[('p', 3)]);
    let mut mq = set_oracle(&[TimedWord::empty()]);
    let mut table: ObservationTable<char> = ObservationTable::new();
    table.insert_experiment_suffixes(e1, &mut mq).unwrap();
    table.insert_sample_prefixes(p1.clone(), &mut mq).unwrap();
    let mut basis_words = BasisWords::new_with_epsilon();
    assert!(basis_words.insert(p1.clone()));

    let samples_before = table.sample_prefixes().len();
    assert!(make_cohesive_step(&mut table, &mut basis_words, &BasisMinimization::Greedy, &mut mq).unwrap());
    assert_eq!(basis_words.as_slice(), &[TimedWord::empty()][..]);
    assert_eq!(table.sample_prefixes().len(), samples_before);
}

#[test]
fn exact_milp_strategy_is_unavailable_in_this_build() {
    let e1 = timed_word(&[('e', 1)]);
    let mut mq = set_oracle(&[TimedWord::empty()]);
    let mut table: ObservationTable<char> = ObservationTable::new();
    table.insert_experiment_suffixes(e1.clone(), &mut mq).unwrap();
    table.insert_sample_prefixes(e1, &mut mq).unwrap();
    let mut basis_words = BasisWords::new_with_epsilon();
    assert_eq!(BasisMinimization::ExactMilp.as_str(), "exact-milp");
    assert_eq!(BasisMinimization::default(), BasisMinimization::Greedy);
    let err = make_cohesive_step(&mut table, &mut basis_words, &BasisMinimization::ExactMilp, &mut mq);
    assert!(matches!(
        err,
        Err(learn_arta::CohesionStepError::BasisMinimization(BasisMinimizationError::MilpBackendUnavailable {
            strategy: "exact-milp"
        }))
    ));
}

#[test]
fn step_reports_check_error_for_basis_word_outside_samples() {
    let mut mq = set_oracle(&[TimedWord::empty()]);
    let mut table: ObservationTable<char> = ObservationTable::new();
    let mut basis_words = BasisWords::new_with_epsilon();
    assert!(basis_words.insert(timed_word(&[('q', 2)])));
    let result = make_cohesive_step(&mut table, &mut basis_words, &BasisMinimization::Greedy, &mut mq);
    assert!(matches!(result, Err(learn_arta::CohesionStepError::Check(CohesionCheckError::MissingRow { .. }))));
    assert_eq!(basis_words.len(), 2);
}

#[test]
fn apply_fix_never_removes_epsilon() {
    let mut mq = set_oracle(&[TimedWord::empty()]);
    let mut table: ObservationTable<char> = ObservationTable::new();
    let mut basis_words = BasisWords::new_with_epsilon();
    apply_fix(&mut table, &mut basis_words, CohesionFix::RemoveBasisWord(TimedWord::empty()), &mut mq).unwrap();
    assert!(basis_words.contains(&TimedWord::empty()));
}

fn symbol_weight(symbol: char) -> u32 {
    match symbol {
        'a' => 1,
        'b' => 3,
        'c' => 5,
        _ => 7,
    }
}

/// The length, the delays in half units and each symbol's weight times its
/// position add up to an even number.
fn word_predicate(word: &TimedWord<char>) -> bool {
    let len_term = word.len() as u32;
    let delay_term = word.iter().map(|(_, delay)| delay.half_units()).sum::<u32>();
    let symbol_term = word
        .iter()
        .enumerate()
        .map(|(idx, (symbol, _))| (idx as u32 + 1) * symbol_weight(*symbol))
        .sum::<u32>();
    (len_term + delay_term + symbol_term) % 2 == 0
}

/// Membership oracle for `word_predicate` on words over `a`, `b`, `c` whose
/// delays are below eight time units: the locations track the parity of the
/// sum so far and of the next position.
fn parity_oracle() -> ArtaMembershipOracle<char> {
    let manager = DagStateFormulaManager::new();
    let location = |sum: u32, pos: u32| LocationId::new(&format!("p{sum}k{pos}"));
    let mut builder = ArtaBuilder::new(DagStateFormula::var(&manager, location(0, 1)));
    for sum in 0..2u32 {
        for pos in 0..2u32 {
            builder.add_location(location(sum, pos));
        }
    }
    builder.add_accepting(location(0, 0)).add_accepting(location(0, 1));
    for sum in 0..2u32 {
        for pos in 0..2u32 {
            for symbol in ['a', 'b', 'c'] {
                for half_units in 0..16u32 {
                    let next_sum = (sum + 1 + half_units + pos * symbol_weight(symbol)) % 2;
                    let next_pos = (pos + 1) % 2;
                    builder.add_transition(
                        location(sum, pos),
                        symbol,
                        delay_guard(half_units),
                        DagStateFormula::var(&manager, location(next_sum, next_pos)),
                    );
                }
            }
        }
    }
    ArtaMembershipOracle::new(builder.build().unwrap())
}

fn assert_table_matches_oracle(table: &ObservationTable<char>) {
    assert!(table.validate_invariants().is_ok());
    assert!(table.is_prefix_closed());
    assert!(table.is_suffix_closed());
    assert!(table.row_of(&TimedWord::empty()).is_some());
    assert!(table.experiment_suffixes().iter().any(|s| s.is_empty()));

    for row in table.rows_of_all_sample_prefixes() {
        assert_eq!(row.len(), table.experiment_suffixes().len());
    }

    for (row_idx, prefix) in table.sample_prefixes().iter().enumerate() {
        let row = table.try_row(row_idx).unwrap();
        for (col_idx, suffix) in table.experiment_suffixes().iter().enumerate() {
            let expected = word_predicate(&prefix.concat(suffix));
            assert_eq!(row.get(col_idx), Some(expected));
        }
    }
}

fn assert_basis_subset_of_samples(table: &ObservationTable<char>, basis_words: &BasisWords<char>) {
    let epsilon = TimedWord::empty();
    assert!(basis_words.contains(&epsilon));
    for basis_word in basis_words.iter() {
        assert!(table.row_of(basis_word).is_some());
    }
}

#[test]
fn cohesion_loop_terminates_for_bounded_example() {
    let mut table = ObservationTable::new();
    let mut mq = parity_oracle();
    let mut basis_words = BasisWords::new_with_epsilon();

    table
        .insert_sample_prefixes(
            TimedWord::from_vec(vec![
                ('a', DelayRep::from_integer(0)),
                ('b', DelayRep::from_floor_plus_half(1)),
            ]),
            &mut mq,
        )
        .expect("pure MQ must not fail");
    table
        .insert_experiment_suffixes(
            TimedWord::from_vec(vec![
                ('c', DelayRep::from_integer(1)),
                ('a', DelayRep::from_floor_plus_half(0)),
            ]),
            &mut mq,
        )
        .expect("pure MQ must not fail");

    let mut terminated = false;
    for _ in 0..100 {
        let changed = make_cohesive_step(&mut table, &mut basis_words, &BasisMinimization::Greedy, &mut mq)
            .expect("pure MQ must not fail");
        assert_table_matches_oracle(&table);
        assert_basis_subset_of_samples(&table, &basis_words);
        if !changed {
            terminated = true;
            break;
        }
    }

    assert!(terminated);
}
