use learn_arta::oracles::membership::{ArtaMembershipOracle, CachingMembershipOracle, MembershipOracle};
use learn_arta::time::interval::Interval;
use learn_arta::{Arta, ArtaBuilder, DagStateFormula, DagStateFormulaManager, DelayRep, LocationId, TimedWord};

/// Inner oracle whose target accepts exactly the words of even length over
/// `a`, `b` and `c`.
fn even_length_oracle() -> ArtaMembershipOracle<char> {
    let manager = DagStateFormulaManager::new();
    let even = LocationId::new("even");
    let odd = LocationId::new("odd");
    let init = DagStateFormula::var(&manager, even.clone());
    let mut builder = ArtaBuilder::new(init);
    builder.add_location(even.clone()).add_location(odd.clone()).add_accepting(even.clone());
    for symbol in ['a', 'b', 'c'] {
        builder.add_transition(even.clone(), symbol, all_delays_guard(), DagStateFormula::var(&manager, odd.clone()));
        builder.add_transition(odd.clone(), symbol, all_delays_guard(), DagStateFormula::var(&manager, even.clone()));
    }
    ArtaMembershipOracle::new(builder.build().expect("parity target should build"))
}

fn timed_word(letters: &[(char, u32)]) -> TimedWord<char> {
    TimedWord::from_vec(
        letters
            .iter()
            .map(|(symbol, half_units)| (*symbol, DelayRep::from_half_units(*half_units)))
            .collect(),
    )
}

#[test]
fn repeated_query_hits_cache() {
    let mut oracle = CachingMembershipOracle::new(even_length_oracle());
    let word = timed_word(&[('a', 1), ('b', 2)]);

    let first = oracle.query(&word).unwrap();
    let second = oracle.query(&word).unwrap();

    assert_eq!(first, second);
    assert_eq!(oracle.cache_misses(), 1);
    assert_eq!(oracle.cache_len(), 1);
    assert_eq!(oracle.cache_hits(), 1);
    assert_eq!(oracle.cache_misses(), 1);
}

#[test]
fn different_words_are_cached_separately() {
    let mut oracle = CachingMembershipOracle::new(even_length_oracle());
    let first_word = timed_word(&[('a', 1)]);
    let second_word = timed_word(&[('a', 1), ('b', 2)]);

    let first = oracle.query(&first_word).unwrap();
    let second = oracle.query(&second_word).unwrap();

    assert_ne!(first_word, second_word);
    assert_ne!(first, second);
    assert_eq!(oracle.cache_misses(), 2);
    assert_eq!(oracle.cache_len(), 2);
    assert_eq!(oracle.cache_hits(), 0);
    assert_eq!(oracle.cache_misses(), 2);
}

#[test]
fn cached_answers_match_inner_answers_and_clear_resets_storage() {
    let mut oracle = CachingMembershipOracle::new(even_length_oracle());
    let words = [
        timed_word(&[]),
        timed_word(&[('a', 1)]),
        timed_word(&[]),
        timed_word(&[('a', 1), ('c', 7)]),
        timed_word(&[('a', 1)]),
    ];
    for w in &words {
        assert_eq!(oracle.query(w), Ok(w.len() % 2 == 0));
    }
    assert_eq!(oracle.cache_len(), 3);
    assert_eq!(oracle.cache_misses(), 3);
    assert_eq!(oracle.cache_hits(), 2);
    oracle.clear_cache();
    assert_eq!(oracle.cache_len(), 0);
    assert_eq!(oracle.query(&words[0]), Ok(true));
    assert_eq!(oracle.cache_misses(), 4);
}

fn all_delays_guard() -> Interval {
    Interval::from_bounds(true, 0, false, None).expect("[0, ∞) must be valid")
}

fn rejecting_target() -> Arta<char> {
    let manager = DagStateFormulaManager::new();
    let q0 = LocationId::new("q0");
    let init = DagStateFormula::var(&manager, q0.clone());
    let mut builder = ArtaBuilder::new(init);
    builder.add_location(q0);
    builder.build().expect("rejecting target should build")
}

fn empty_word_accepting_target() -> Arta<char> {
    let manager = DagStateFormulaManager::new();
    let q0 = LocationId::new("q0");
    let init = DagStateFormula::var(&manager, q0.clone());
    let mut builder = ArtaBuilder::new(init);
    builder.add_location(q0.clone()).add_accepting(q0);
    builder.build().expect("empty-word accepting target should build")
}

fn one_step_accepting_target() -> Arta<char> {
    let manager = DagStateFormulaManager::new();
    let q0 = LocationId::new("q0");
    let q1 = LocationId::new("q1");
    let init = DagStateFormula::var(&manager, q0.clone());
    let mut builder = ArtaBuilder::new(init);
    builder
        .add_location(q0.clone())
        .add_location(q1.clone())
        .add_accepting(q1.clone())
        .add_transition(q0, 'a', all_delays_guard(), DagStateFormula::var(&manager, q1));
    builder.build().expect("one-step target should build")
}

#[test]
fn empty_word_query_matches_accepts() {
    let target = empty_word_accepting_target();
    let mut oracle = ArtaMembershipOracle::new(empty_word_accepting_target());
    let word = TimedWord::empty();

    assert_eq!(oracle.query(&word), Ok(target.accepts(&word)));
    assert!(target.accepts(&word));
}

#[test]
fn non_empty_query_matches_accepts() {
    let target = one_step_accepting_target();
    let mut oracle = ArtaMembershipOracle::new(one_step_accepting_target());
    let word = TimedWord::from_vec(vec![('a', DelayRep::from_floor_plus_half(1))]);

    assert_eq!(oracle.query(&word), Ok(target.accepts(&word)));
    assert!(target.accepts(&word));
}

#[test]
fn accepting_and_rejecting_targets_behave_as_expected() {
    let word = TimedWord::empty();

    let mut accepting_oracle = ArtaMembershipOracle::new(empty_word_accepting_target());
    let mut rejecting_oracle = ArtaMembershipOracle::new(rejecting_target());

    assert_eq!(accepting_oracle.query(&word), Ok(true));
    assert_eq!(rejecting_oracle.query(&word), Ok(false));
}
