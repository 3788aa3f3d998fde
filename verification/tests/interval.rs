use learn_arta::error::IntervalError;
use learn_arta::time::interval::Interval;
use learn_arta::DelayRep;

#[test]
fn contains_open_interval_boundaries() {
    let iv = Interval::open(5, 7).unwrap();
    assert!(!iv.contains(DelayRep::from_integer(5)));
    assert!(iv.contains(DelayRep::from_half_units(11)));
    assert!(iv.contains(DelayRep::from_integer(6)));
    assert!(!iv.contains(DelayRep::from_integer(7)));
}

#[test]
fn contains_single_point_interval_only_integer_point() {
    let iv = Interval::closed(3, 3).unwrap();
    assert!(iv.contains(DelayRep::from_integer(3)));
    assert!(!iv.contains(DelayRep::from_half_units(5)));
    assert!(!iv.contains(DelayRep::from_half_units(7)));
}

#[test]
fn constructors_reject_empty_equal_endpoints() {
    assert_eq!(Interval::open(4, 4), Err(IntervalError::Empty));
    assert_eq!(Interval::left_open_right_closed(4, 4), Err(IntervalError::Empty));
    assert_eq!(Interval::left_closed_right_open(4, 4), Err(IntervalError::Empty));
}

#[test]
fn constructors_reject_invalid_bounds() {
    assert_eq!(Interval::closed(7, 4), Err(IntervalError::LowerExceedsUpper { lower: 7, upper: 4 }));
    assert_eq!(Interval::from_bounds(true, 1, true, None), Err(IntervalError::InclusiveInfiniteUpper));
}

#[test]
fn intersects_and_disjoint_boundary_behavior() {
    let a = Interval::closed(0, 1).unwrap();
    let b = Interval::left_open_right_closed(1, 2).unwrap();
    let c = Interval::closed(1, 2).unwrap();

    assert!(a.is_disjoint(&b));
    assert!(!a.intersects(&b));
    assert!(a.intersects(&c));
    assert!(!a.is_disjoint(&c));
}

#[test]
fn merge_adjacent_or_overlapping_intervals() {
    let a = Interval::left_closed_right_open(0, 1).unwrap();
    let b = Interval::left_closed_right_open(1, 2).unwrap();
    let merged = a.try_merge_adjacent(&b).unwrap();
    assert_eq!(merged.to_string(), "[0,2)");

    let c = Interval::left_closed_right_open(0, 1).unwrap();
    let d = Interval::left_open_right_closed(1, 2).unwrap();
    assert!(c.try_merge_adjacent(&d).is_none());
}

#[test]
fn display_is_stable_and_compact() {
    assert_eq!(Interval::left_closed_right_open(2, 4).unwrap().to_string(), "[2,4)");
    assert_eq!(Interval::from_bounds(false, 5, false, None).unwrap().to_string(), "(5,∞)");
    assert_eq!(Interval::closed(0, 0).unwrap().to_string(), "[0,0]");
}

#[test]
fn from_str_accepts_ascii_plus_and_unicode_infinity() {
    let ascii: Interval = "[5,+)".parse().unwrap();
    let unicode: Interval = "(1,∞)".parse().unwrap();

    assert_eq!(ascii, Interval::from_bounds(true, 5, false, None).unwrap());
    assert_eq!(unicode, Interval::from_bounds(false, 1, false, None).unwrap());
}

#[test]
fn from_str_rejects_malformed_inputs() {
    assert_eq!("[a,1)".parse::<Interval>(), Err(IntervalError::InvalidSyntax("[a,1)".to_string())));
    assert_eq!("0,1".parse::<Interval>(), Err(IntervalError::InvalidSyntax("0,1".to_string())));
}

#[test]
fn infinity_delay_is_not_contained() {
    let iv = Interval::from_bounds(true, 0, false, None).unwrap();
    assert!(!iv.contains(DelayRep::infinity()));
}

#[test]
fn parse_trims_whitespace_and_reads_closed_bounds() {
    assert_eq!(Interval::parse("  [2, 7] ").unwrap(), Interval::closed(2, 7).unwrap());
    assert_eq!(
        Interval::parse("[3,2]"),
        Err(IntervalError::LowerExceedsUpper { lower: 3, upper: 2 })
    );
    assert_eq!(Interval::parse("(4,4)"), Err(IntervalError::Empty));
    assert_eq!(Interval::parse("[1,+]"), Err(IntervalError::InclusiveInfiniteUpper));
}

#[test]
fn intersects_is_symmetric_and_disjoint_is_its_negation() {
    let ivs = [
        Interval::closed(0, 0).unwrap(),
        Interval::open(0, 1).unwrap(),
        Interval::left_closed_right_open(1, 3).unwrap(),
        Interval::from_bounds(false, 2, false, None).unwrap(),
        Interval::closed(3, 5).unwrap(),
    ];
    for a in &ivs {
        for b in &ivs {
            assert_eq!(a.intersects(b), b.intersects(a));
            assert_eq!(a.is_disjoint(b), !a.intersects(b));
        }
    }
}
