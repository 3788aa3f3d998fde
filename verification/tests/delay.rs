use learn_arta::DelayRep;

#[test]
fn test_ceil_zero_is_unchanged() {
    assert_eq!(DelayRep::zero().ceil(), DelayRep::zero());
}

#[test]
fn test_ceil_integer_delay_is_unchanged() {
    let d = DelayRep::from_integer(7);
    assert_eq!(d.ceil(), d);
}

#[test]
fn test_ceil_half_integer_rounds_up() {
    assert_eq!(DelayRep::from_floor_plus_half(7).ceil(), DelayRep::from_integer(8));
}

#[test]
fn test_ceil_infinity_is_unchanged() {
    assert_eq!(DelayRep::infinity().ceil(), DelayRep::infinity());
}

#[test]
fn test_from_floor_plus_half_regular_values() {
    assert_eq!(DelayRep::from_floor_plus_half(0), DelayRep::from_half_units(1));
    assert_eq!(DelayRep::from_floor_plus_half(1), DelayRep::from_half_units(3));
    assert_eq!(DelayRep::from_floor_plus_half(42), DelayRep::from_half_units(85));
}

#[test]
fn test_large_constructor_inputs_wrap_consistently() {
    let largest_finite_floor = (u32::MAX - 2) / 2;
    let largest_finite = DelayRep::from_floor_plus_half(largest_finite_floor);
    assert!(largest_finite.is_half_integer());
    assert_eq!(largest_finite.half_units(), u32::MAX - 2);

    let colliding_floor = u32::MAX / 2;
    assert!(DelayRep::from_floor_plus_half(colliding_floor).is_infinity());

    let overflowing_floor = colliding_floor.saturating_add(1);
    assert_eq!(DelayRep::from_floor_plus_half(overflowing_floor), DelayRep::from_half_units(1));

    let overflowing_integer = colliding_floor.saturating_add(1);
    assert_eq!(DelayRep::from_integer(overflowing_integer), DelayRep::zero());
}

#[test]
fn floor_and_ceil_ints_of_half_integer_delays() {
    let d = DelayRep::from_floor_plus_half(4);
    assert_eq!(d.floor_int(), Some(4));
    assert_eq!(d.ceil_int(), Some(5));
    assert_eq!(DelayRep::from_integer(4).ceil_int(), Some(4));
    assert_eq!(DelayRep::infinity().floor_int(), None);
    assert!(DelayRep::from_integer(3).lt(DelayRep::from_floor_plus_half(3)));
}
