use learn_arta::oracles::partition::{
    interval_to_half_unit_range, partition_half_unit_ranges, HalfUnitRange,
};
use learn_arta::time::delay::MAX_FINITE_HALF_UNITS;
use learn_arta::time::interval::Interval;
use learn_arta::DelayRep;

fn ranges_from_intervals(intervals: &[Interval]) -> Vec<HalfUnitRange> {
    intervals
        .iter()
        .filter_map(interval_to_half_unit_range)
        .collect()
}

fn membership_signature(ranges: &[HalfUnitRange], delay: DelayRep) -> Vec<bool> {
    let half_units = u64::from(delay.half_units());
    ranges
        .iter()
        .map(|range| range.contains_half_units(half_units))
        .collect()
}

#[test]
fn partition_defaults_to_zero_when_no_guards_exist() {
    let partition = partition_half_unit_ranges(&[]);
    assert_eq!(
        partition,
        vec![HalfUnitRange {
            start: 0,
            end: None,
        }]
    );
    assert_eq!(
        partition
            .into_iter()
            .filter_map(|range| range.descending_preference_delay())
            .collect::<Vec<_>>(),
        vec![DelayRep::zero()]
    );
}

#[test]
fn partition_cells_are_sorted_non_empty_and_deterministic() {
    let guard_ranges = ranges_from_intervals(&[
        Interval::left_closed_right_open(0, 1).expect("valid interval"),
        Interval::closed(1, 3).expect("valid interval"),
        Interval::from_bounds(true, 5, false, None).expect("valid interval"),
    ]);

    let first = partition_half_unit_ranges(&guard_ranges);
    let second = partition_half_unit_ranges(&guard_ranges);

    assert_eq!(first, second);
    assert!(!first.is_empty());
    assert!(first.iter().all(|range| match range.end {
        Some(end) => range.start <= end,
        None => true,
    }));
    assert!(first.windows(2).all(|pair| pair[0].start < pair[1].start));
}

#[test]
fn descending_delay_preference_uses_upper_bound_for_finite_cells_and_start_for_tail() {
    let partition = [
        HalfUnitRange {
            start: 1,
            end: Some(2),
        },
        HalfUnitRange {
            start: 3,
            end: Some(6),
        },
        HalfUnitRange {
            start: 8,
            end: None,
        },
    ];

    let representatives: Vec<_> = partition
        .iter()
        .rev()
        .filter_map(HalfUnitRange::descending_preference_delay)
        .collect();

    assert_eq!(
        representatives,
        vec![
            DelayRep::from_half_units(8),
            DelayRep::from_half_units(6),
            DelayRep::from_half_units(2),
        ]
    );
}

#[test]
fn descending_representatives_stay_inside_same_partition_cell() {
    let guard_ranges = ranges_from_intervals(&[
        Interval::left_open_right_closed(0, 1).expect("valid interval"),
        Interval::closed(1, 1).expect("valid interval"),
        Interval::from_bounds(true, 2, false, None).expect("valid interval"),
    ]);
    let partition = partition_half_unit_ranges(&guard_ranges);

    for cell in partition {
        let first = cell
            .descending_preference_delay()
            .expect("partition cell must have a representative");
        let second_half_units = match cell.end {
            Some(_) => cell.start,
            None => cell
                .start
                .saturating_add(1)
                .min(u64::from(MAX_FINITE_HALF_UNITS)),
        };
        let second = DelayRep::from_half_units(
            u32::try_from(second_half_units).expect("cell witness must fit into DelayRep"),
        );

        assert_eq!(
            membership_signature(&guard_ranges, first),
            membership_signature(&guard_ranges, second)
        );
    }
}

#[test]
fn adjacent_partition_cells_change_membership_pattern() {
    let guard_ranges = ranges_from_intervals(&[
        Interval::left_open_right_closed(0, 1).expect("valid interval"),
        Interval::closed(1, 1).expect("valid interval"),
        Interval::from_bounds(true, 2, false, None).expect("valid interval"),
    ]);
    let partition = partition_half_unit_ranges(&guard_ranges);
    let representatives: Vec<_> = partition
        .iter()
        .rev()
        .filter_map(HalfUnitRange::descending_preference_delay)
        .collect();

    for pair in representatives.windows(2) {
        assert_ne!(
            membership_signature(&guard_ranges, pair[0]),
            membership_signature(&guard_ranges, pair[1])
        );
    }
}

#[test]
fn partition_of_known_guards_has_exact_cells() {
    let guard_ranges = ranges_from_intervals(&[
        Interval::left_open_right_closed(0, 1).expect("valid interval"),
        Interval::from_bounds(true, 2, false, None).expect("valid interval"),
    ]);
    assert_eq!(
        guard_ranges,
        vec![
            HalfUnitRange { start: 1, end: Some(2) },
            HalfUnitRange { start: 4, end: None },
        ]
    );
    let partition = partition_half_unit_ranges(&guard_ranges);
    assert_eq!(
        partition,
        vec![
            HalfUnitRange { start: 0, end: Some(0) },
            HalfUnitRange { start: 1, end: Some(2) },
            HalfUnitRange { start: 3, end: Some(3) },
            HalfUnitRange { start: 4, end: None },
        ]
    );
}
