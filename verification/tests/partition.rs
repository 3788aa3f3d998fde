use learn_arta::partition::{infer_guard_intervals_from_delays, PartitionError};
use learn_arta::time::interval::Interval;
use learn_arta::DelayRep;

fn d_int(n: u32) -> DelayRep {
    DelayRep::from_integer(n)
}

fn d_half(n: u32) -> DelayRep {
    DelayRep::from_floor_plus_half(n)
}

fn p(li: bool, l: DelayRep, ui: bool, u: Option<DelayRep>) -> Interval {
    let lower = l.floor_int().expect("expected finite integer lower bound");
    let upper = u.map(|bound| bound.floor_int().expect("expected finite integer upper bound"));
    Interval::from_bounds(li, lower, ui, upper).expect("valid expected partition interval")
}

fn assert_universal_ok_invariants(delays: &[DelayRep], intervals: &[Interval]) {
    assert_eq!(intervals.len(), delays.len());
    for (delay, interval) in delays.iter().copied().zip(intervals.iter()) {
        assert!(interval.contains(delay));
    }
    for i in 0..intervals.len().saturating_sub(1) {
        assert!(intervals[i].is_disjoint(&intervals[i + 1]));
    }
}

#[test]
fn precondition_empty_input() {
    let err = infer_guard_intervals_from_delays(&[]).unwrap_err();
    assert_eq!(err, PartitionError::EmptyInput);
}

#[test]
fn precondition_not_strictly_increasing() {
    let delays = [d_int(1), d_int(1), d_int(2)];
    let err = infer_guard_intervals_from_delays(&delays).unwrap_err();
    assert!(matches!(err, PartitionError::NotStrictlyIncreasing { index: 1, .. }));
}

#[test]
fn precondition_allows_integer_then_half_integer_same_floor() {
    let delays = [d_int(1), d_half(1)];
    let got = infer_guard_intervals_from_delays(&delays).unwrap();
    let expected = vec![p(true, d_int(0), true, Some(d_int(1))), p(false, d_int(1), false, None)];
    assert_eq!(got, expected);
    assert_universal_ok_invariants(&delays, &got);
}

#[test]
fn precondition_rejects_infinity() {
    let delays = [d_int(0), DelayRep::infinity()];
    let err = infer_guard_intervals_from_delays(&delays).unwrap_err();
    assert!(matches!(err, PartitionError::InfiniteDelay { index: 1 }));
}

#[test]
fn n1_returns_zero_to_infinity() {
    let delays = [d_half(3)];
    let got = infer_guard_intervals_from_delays(&delays).unwrap();
    assert_eq!(got, vec![p(true, d_int(0), false, None)]);
    assert_universal_ok_invariants(&delays, &got);
}

#[test]
fn n2_first_delay_integer() {
    let delays = [d_int(2), d_half(5)];
    let got = infer_guard_intervals_from_delays(&delays).unwrap();
    let expected = vec![p(true, d_int(0), true, Some(d_int(2))), p(false, d_int(2), false, None)];
    assert_eq!(got, expected);
    assert_universal_ok_invariants(&delays, &got);
}

#[test]
fn n2_first_delay_non_integer() {
    let delays = [d_half(2), d_int(5)];
    let got = infer_guard_intervals_from_delays(&delays).unwrap();
    let expected = vec![p(true, d_int(0), false, Some(d_int(3))), p(true, d_int(3), false, None)];
    assert_eq!(got, expected);
    assert_universal_ok_invariants(&delays, &got);
}

#[test]
fn repeated_floor_is_allowed_across_middle_and_last_cases() {
    let delays = [d_int(1), d_half(1), d_int(2)];
    let got = infer_guard_intervals_from_delays(&delays).unwrap();
    let expected = vec![
        p(true, d_int(0), true, Some(d_int(1))),
        p(false, d_int(1), false, Some(d_int(2))),
        p(true, d_int(2), false, None),
    ];
    assert_eq!(got, expected);
    assert_universal_ok_invariants(&delays, &got);
}

#[test]
fn middle_case_prev_integer_curr_integer() {
    let delays = [d_int(0), d_int(2), d_int(4)];
    let got = infer_guard_intervals_from_delays(&delays).unwrap();
    let expected = vec![
        p(true, d_int(0), true, Some(d_int(0))),
        p(false, d_int(0), true, Some(d_int(2))),
        p(false, d_int(2), false, None),
    ];
    assert_eq!(got, expected);
    assert_universal_ok_invariants(&delays, &got);
}

#[test]
fn middle_case_prev_non_integer_curr_integer() {
    let delays = [d_half(0), d_int(2), d_half(4)];
    let got = infer_guard_intervals_from_delays(&delays).unwrap();
    let expected = vec![
        p(true, d_int(0), false, Some(d_int(1))),
        p(true, d_int(1), true, Some(d_int(2))),
        p(false, d_int(2), false, None),
    ];
    assert_eq!(got, expected);
    assert_universal_ok_invariants(&delays, &got);
}

#[test]
fn middle_case_prev_integer_curr_non_integer() {
    let delays = [d_int(0), d_half(2), d_half(5)];
    let got = infer_guard_intervals_from_delays(&delays).unwrap();
    let expected = vec![
        p(true, d_int(0), true, Some(d_int(0))),
        p(false, d_int(0), false, Some(d_int(3))),
        p(true, d_int(3), false, None),
    ];
    assert_eq!(got, expected);
    assert_universal_ok_invariants(&delays, &got);
}

#[test]
fn middle_case_prev_non_integer_curr_non_integer() {
    let delays = [d_half(0), d_half(2), d_half(5)];
    let got = infer_guard_intervals_from_delays(&delays).unwrap();
    let expected = vec![
        p(true, d_int(0), false, Some(d_int(1))),
        p(true, d_int(1), false, Some(d_int(3))),
        p(true, d_int(3), false, None),
    ];
    assert_eq!(got, expected);
    assert_universal_ok_invariants(&delays, &got);
}

#[test]
fn middle_case_prev_non_integer_curr_integer_can_be_singleton() {
    let delays = [d_half(0), d_int(1), d_int(2)];
    let got = infer_guard_intervals_from_delays(&delays).unwrap();
    let expected = vec![
        p(true, d_int(0), false, Some(d_int(1))),
        p(true, d_int(1), true, Some(d_int(1))),
        p(false, d_int(1), false, None),
    ];
    assert_eq!(got, expected);
    assert_universal_ok_invariants(&delays, &got);
}

#[test]
fn last_case_prev_integer() {
    let delays = [d_int(1), d_int(3)];
    let got = infer_guard_intervals_from_delays(&delays).unwrap();
    assert_eq!(got[1], p(false, d_int(1), false, None));
    assert_universal_ok_invariants(&delays, &got);
}

#[test]
fn last_case_prev_non_integer() {
    let delays = [d_half(1), d_int(5)];
    let got = infer_guard_intervals_from_delays(&delays).unwrap();
    assert_eq!(got[1], p(true, d_int(2), false, None));
    assert_universal_ok_invariants(&delays, &got);
}
