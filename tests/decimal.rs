use orbital_core::decimal::{Decimal, DecimalError};

#[test]
fn decimals_are_written_in_plain_notation() {
    assert_eq!(Decimal::new(123, -2).to_string(), "1.23");
    assert_eq!(Decimal::new(1230, -3).to_string(), "1.23");
    assert_eq!(Decimal::new(5, 3).to_string(), "5000");
    assert_eq!(Decimal::new(5, -3).to_string(), "0.005");
    assert_eq!(Decimal::new(-42, -1).to_string(), "-4.2");
    assert_eq!(Decimal::new(0, -7).to_string(), "0");
}

#[test]
fn decimals_are_read_digit_for_digit() {
    assert_eq!(Decimal::parse("45.5"), Ok(Decimal::new(455, -1)));
    assert_eq!(Decimal::parse(".5"), Ok(Decimal::new(5, -1)));
    assert_eq!(Decimal::parse("5."), Ok(Decimal::new(5, 0)));
    assert_eq!(Decimal::parse("-0.25"), Ok(Decimal::new(-25, -2)));
    assert_eq!(Decimal::parse(""), Err(DecimalError::Empty));
    assert_eq!(Decimal::parse("."), Err(DecimalError::Invalid));
    assert_eq!(Decimal::parse("-"), Err(DecimalError::Invalid));
    assert_eq!(Decimal::parse("1a"), Err(DecimalError::Invalid));
}

#[test]
fn written_decimal_reads_back() {
    for d in [Decimal::new(123, -2), Decimal::new(-7, 4), Decimal::new(1, -9), Decimal::new(0, 0)] {
        let back = Decimal::parse(&d.to_string()).unwrap();
        let (a, b) = (d.mantissa as f64 * 10f64.powi(d.exponent), back.mantissa as f64 * 10f64.powi(back.exponent));
        assert!((a - b).abs() <= 1e-12 * a.abs().max(1.0));
    }
}

#[test]
fn exponent_notation_is_read() {
    assert_eq!(Decimal::parse("1e3"), Ok(Decimal::new(1, 3)));
    assert_eq!(Decimal::parse("1.5e11"), Ok(Decimal::new(15, 10)));
    assert_eq!(Decimal::parse("2E-3"), Ok(Decimal::new(2, -3)));
    assert_eq!(Decimal::parse("-2.5e+2"), Ok(Decimal::new(-25, 1)));
    assert_eq!(Decimal::parse("1e"), Err(DecimalError::Invalid));
    assert_eq!(Decimal::parse("e5"), Err(DecimalError::Invalid));
    assert_eq!(Decimal::parse("1e5x"), Err(DecimalError::Invalid));
    assert_eq!(Decimal::parse("1e99999999999"), Err(DecimalError::OutOfRange));
    assert_eq!(Decimal::parse("1e2147483648"), Err(DecimalError::OutOfRange));
    assert_eq!(Decimal::parse("1e2147483647"), Ok(Decimal::new(1, 2147483647)));
}

#[test]
fn large_and_small_decimals_use_exponent_notation() {
    assert_eq!(Decimal::new(1, 39).to_string(), "1e39");
    assert_eq!(Decimal::new(-12, 40).to_string(), "-12e40");
    assert_eq!(Decimal::new(1, -41).to_string(), "1e-41");
    assert_eq!(Decimal::new(1, i32::MAX).to_string(), "1e2147483647");
    assert_eq!(Decimal::new(10, i32::MAX).to_string(), "10e2147483647");
    assert_eq!(Decimal::new(1, i32::MIN).to_string(), "1e-2147483648");
    assert_eq!(Decimal::new(i128::MAX, 0).to_string(), "170141183460469231731687303715884105727");
}

#[test]
fn every_decimal_reads_back_from_its_text() {
    for d in [
        Decimal::new(1, 39),
        Decimal::new(i128::MIN, 0),
        Decimal::new(i128::MIN, 5),
        Decimal::new(i128::MAX, -3),
        Decimal::new(7, i32::MIN),
        Decimal::new(10, i32::MAX),
        Decimal::new(-3, -45),
    ] {
        let back = Decimal::parse(&d.to_string()).unwrap();
        assert_eq!(back, d);
    }
    assert_eq!(
        Decimal::parse("-170141183460469231731687303715884105728"),
        Ok(Decimal::new(i128::MIN, 0))
    );
    assert_eq!(
        Decimal::parse("170141183460469231731687303715884105728"),
        Err(DecimalError::OutOfRange)
    );
}

#[test]
fn decimals_compare_by_value() {
    assert_eq!(Decimal::new(15, -1), Decimal::new(150, -2));
    assert_eq!(Decimal::new(0, 5), Decimal::new(0, -3));
    assert_eq!(Decimal::new(-2, 3), Decimal::new(-2000, 0));
    assert_ne!(Decimal::new(2, 3), Decimal::new(-2000, 0));
    assert_ne!(Decimal::new(15, -1), Decimal::new(16, -1));
    assert_ne!(Decimal::new(1, 0), Decimal::new(0, 0));
}
