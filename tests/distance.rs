use orbital_core::decimal::Decimal;
use orbital_core::distance::DistanceUnit;

#[test]
fn astronomical_distance_is_shown_in_au() {
    assert_eq!(
        DistanceUnit::from_base_value(&Decimal::new(15, 10)),
        DistanceUnit::AstronomicalUnits
    );
}

#[test]
fn units_are_chosen_above_half_a_unit() {
    assert_eq!(DistanceUnit::from_base_value(&Decimal::new(3, -1)), DistanceUnit::Meters);
    assert_eq!(DistanceUnit::from_base_value(&Decimal::new(500, 0)), DistanceUnit::Meters);
    assert_eq!(DistanceUnit::from_base_value(&Decimal::new(5001, -1)), DistanceUnit::Kilometers);
    assert_eq!(DistanceUnit::from_base_value(&Decimal::new(1, 16)), DistanceUnit::Lightyears);
    assert_eq!(DistanceUnit::from_base_value(&Decimal::new(2, 17)), DistanceUnit::Parsecs);
    assert_eq!(DistanceUnit::from_base_value(&Decimal::new(1, 60)), DistanceUnit::Parsecs);
    assert_eq!(DistanceUnit::from_base_value(&Decimal::new(-1, 20)), DistanceUnit::Meters);
    assert_eq!(DistanceUnit::from_base_value(&Decimal::new(1, -60)), DistanceUnit::Meters);
}

#[test]
fn unit_factors_and_symbols() {
    assert_eq!(DistanceUnit::AstronomicalUnits.factor(), 149_597_870_700);
    assert_eq!(DistanceUnit::Parsecs.factor(), 308_567_758_149_136_730);
    assert_eq!(DistanceUnit::Kilometers.to_string(), "km");
    assert_eq!(DistanceUnit::Lightyears.to_string(), "ly");
    assert!(DistanceUnit::Meters < DistanceUnit::Parsecs);
}
