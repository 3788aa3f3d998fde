use learn_arta::{DelayRep, TimedLetter, TimedWord};

fn word_from_pairs(pairs: &[(char, u32)]) -> TimedWord<char> {
    TimedWord::from_vec(
        pairs
            .iter()
            .map(|(symbol, half_units)| (*symbol, DelayRep::from_half_units(*half_units)))
            .collect(),
    )
}

#[test]
fn suffixes_empty_word() {
    let w = TimedWord::<char>::empty();
    assert_eq!(w.suffixes(), vec![TimedWord::<char>::empty()]);
}

#[test]
fn prefixes_empty_word() {
    let w = TimedWord::<char>::empty();
    assert_eq!(w.prefixes(), vec![TimedWord::<char>::empty()]);
}

#[test]
fn prefixes_single_letter_word() {
    let w = word_from_pairs(&[('a', 3)]);
    assert_eq!(w.prefixes(), vec![TimedWord::empty(), w.clone()]);
}

#[test]
fn prefixes_multi_letter_word_in_order() {
    let l1 = ('a', DelayRep::from_half_units(1));
    let l2 = ('b', DelayRep::from_half_units(2));
    let l3 = ('a', DelayRep::from_half_units(5));
    let w = TimedWord::from_vec(vec![l1, l2, l3]);
    let expected = vec![
        TimedWord::empty(),
        TimedWord::from_vec(vec![l1]),
        TimedWord::from_vec(vec![l1, l2]),
        TimedWord::from_vec(vec![l1, l2, l3]),
    ];
    assert_eq!(w.prefixes(), expected);
}

#[test]
fn suffixes_single_letter_word() {
    let w = word_from_pairs(&[('a', 3)]);
    assert_eq!(w.suffixes(), vec![w.clone(), TimedWord::empty()]);
}

#[test]
fn append_letter_returns_extended_copy() {
    let original = word_from_pairs(&[('a', 1), ('b', 4)]);
    let letter: TimedLetter<char> = ('c', DelayRep::from_half_units(7));
    let extended = original.append_letter(letter);
    assert_eq!(
        original.as_slice(),
        &[('a', DelayRep::from_half_units(1)), ('b', DelayRep::from_half_units(4))],
    );
    assert_eq!(
        extended.as_slice(),
        &[
            ('a', DelayRep::from_half_units(1)),
            ('b', DelayRep::from_half_units(4)),
            ('c', DelayRep::from_half_units(7)),
        ],
    );
}

#[test]
fn suffixes_multi_letter_word_in_order() {
    let l1 = ('a', DelayRep::from_half_units(1));
    let l2 = ('b', DelayRep::from_half_units(2));
    let l3 = ('a', DelayRep::from_half_units(5));
    let w = TimedWord::from_vec(vec![l1, l2, l3]);
    let expected = vec![
        TimedWord::from_vec(vec![l1, l2, l3]),
        TimedWord::from_vec(vec![l2, l3]),
        TimedWord::from_vec(vec![l3]),
        TimedWord::empty(),
    ];
    assert_eq!(w.suffixes(), expected);
}

#[test]
fn generic_f64_word_supports_concat_prefixes_and_suffixes() {
    let left = TimedWord::from_vec(vec![('a', 1.2_f64)]);
    let right = TimedWord::from_vec(vec![('b', f64::INFINITY)]);
    let combined = left.concat(&right);

    assert_eq!(combined.as_slice(), &[('a', 1.2), ('b', f64::INFINITY)]);
    assert_eq!(combined.prefixes().len(), 3);
    assert_eq!(combined.suffixes().len(), 3);
    assert_eq!(combined.prefixes()[1].as_slice(), &[('a', 1.2)]);
    assert_eq!(combined.suffixes()[1].as_slice(), &[('b', f64::INFINITY)]);
}

#[test]
fn every_prefix_and_suffix_reconstructs_the_word() {
    let w = word_from_pairs(&[('a', 0), ('b', 3), ('c', 8), ('a', 1)]);
    let prefixes = w.prefixes();
    let suffixes = w.suffixes();
    assert_eq!(prefixes.len(), w.len() + 1);
    assert_eq!(suffixes.len(), w.len() + 1);
    for k in 0..=w.len() {
        assert_eq!(prefixes[k].as_slice(), &w.as_slice()[..k]);
        assert_eq!(suffixes[k].as_slice(), &w.as_slice()[k..]);
        assert_eq!(prefixes[k].concat(&suffixes[k]), w);
    }
}
