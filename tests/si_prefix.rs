use orbital_core::decimal::{Decimal, DecimalError};
use orbital_core::si_prefix::{SiPrefix, SiPrefixed};

fn to_f64(d: Decimal) -> f64 {
    if d.exponent >= 0 {
        d.mantissa as f64 * 10f64.powi(d.exponent)
    } else {
        d.mantissa as f64 / 10f64.powi(-d.exponent)
    }
}

#[test]
fn test_from_str() {
    let si_prefixed: SiPrefixed = "1.23k".parse().unwrap();
    assert_eq!(to_f64(si_prefixed.value), 1.23);
    assert_eq!(si_prefixed.prefix, Some(SiPrefix::Kilo));

    let si_prefixed: SiPrefixed = "1.23".parse().unwrap();
    assert_eq!(to_f64(si_prefixed.value), 1.23);
    assert_eq!(si_prefixed.prefix, None);
}

#[test]
fn test_to_string() {
    let si_prefixed = SiPrefixed {
        value: Decimal::new(123, -2),
        prefix: Some(SiPrefix::Kilo),
    };
    assert_eq!(si_prefixed.to_string(), "1.23k");

    let si_prefixed = SiPrefixed {
        value: Decimal::new(123, -2),
        prefix: None,
    };
    assert_eq!(si_prefixed.to_string(), "1.23");
}

#[test]
fn test_to_base_value() {
    let si_prefixed = SiPrefixed {
        value: Decimal::new(123, -2),
        prefix: Some(SiPrefix::Kilo),
    };
    assert_eq!(to_f64(si_prefixed.as_base_value()), 1230.0);

    let si_prefixed = SiPrefixed {
        value: Decimal::new(123, -2),
        prefix: None,
    };
    assert_eq!(to_f64(si_prefixed.as_base_value()), 1.23);
}

#[test]
fn parsed_prefixed_values_in_base_units() {
    let k = SiPrefixed::parse("1.23k").unwrap().as_base_value();
    assert_eq!((k.mantissa, k.exponent), (123, 1));
    assert_eq!(to_f64(k), 1230.0);
    let plain = SiPrefixed::parse("1.23").unwrap().as_base_value();
    assert_eq!(to_f64(plain), 1.23);
    let giga = SiPrefixed::parse("149.6G").unwrap().as_base_value();
    assert_eq!((giga.mantissa, giga.exponent), (1496, 8));
}

#[test]
fn letters_round_trip_except_deci() {
    let all = [
        SiPrefix::Yotta, SiPrefix::Zetta, SiPrefix::Exa, SiPrefix::Peta, SiPrefix::Tera,
        SiPrefix::Giga, SiPrefix::Mega, SiPrefix::Kilo, SiPrefix::Hecto, SiPrefix::Deca,
        SiPrefix::Centi, SiPrefix::Milli, SiPrefix::Micro, SiPrefix::Nano, SiPrefix::Pico,
        SiPrefix::Femto, SiPrefix::Atto, SiPrefix::Zepto, SiPrefix::Yocto,
    ];
    for p in all {
        assert_eq!(SiPrefix::from_char(p.as_char()), Some(p));
    }
    assert_eq!(SiPrefix::Deci.as_char(), 'd');
    assert_eq!(SiPrefix::from_char('d'), Some(SiPrefix::Deca));
    assert_eq!(SiPrefix::from_char('x'), None);
}

#[test]
fn prefix_exponents() {
    assert_eq!(SiPrefix::Yotta.exponent(), 24);
    assert_eq!(SiPrefix::Kilo.exponent(), 3);
    assert_eq!(SiPrefix::Deci.exponent(), -1);
    assert_eq!(SiPrefix::Yocto.exponent(), -24);
}

#[test]
fn malformed_prefixed_values_fail() {
    assert_eq!(SiPrefixed::parse(""), Err(DecimalError::Empty));
    assert_eq!(SiPrefixed::parse("k"), Err(DecimalError::Empty));
    assert_eq!(SiPrefixed::parse("1.2.3k"), Err(DecimalError::Invalid));
    assert_eq!(SiPrefixed::parse("12x"), Err(DecimalError::Invalid));
    assert_eq!(
        SiPrefixed::parse("999999999999999999999999999999999999999999"),
        Err(DecimalError::OutOfRange)
    );
}

#[test]
fn negative_and_signed_values() {
    let v = SiPrefixed::parse("-2.5m").unwrap();
    assert_eq!(v.value, Decimal::new(-25, -1));
    assert_eq!(v.prefix, Some(SiPrefix::Milli));
    assert_eq!(v.to_string(), "-2.5m");
    let v = SiPrefixed::parse("+7").unwrap();
    assert_eq!(v.value, Decimal::new(7, 0));
}

#[test]
fn zero_and_default() {
    assert_eq!(SiPrefixed::zero(), SiPrefixed::default());
    assert_eq!(SiPrefixed::zero().to_string(), "0");
    assert_eq!(SiPrefixed::from_base(Decimal::new(5, 2)).to_string(), "500");
}

#[test]
fn prefix_is_read_from_the_first_character() {
    assert_eq!("k".parse::<SiPrefix>(), Ok(SiPrefix::Kilo));
    assert_eq!("Mega".parse::<SiPrefix>(), Ok(SiPrefix::Mega));
    assert_eq!("".parse::<SiPrefix>(), Err(()));
    assert_eq!("x".parse::<SiPrefix>(), Err(()));
}

#[test]
fn prefixed_values_may_use_exponent_notation() {
    let v = SiPrefixed::parse("1.5e3k").unwrap();
    assert_eq!(v.value, Decimal::new(15, 2));
    assert_eq!(v.prefix, Some(SiPrefix::Kilo));
    let v = SiPrefixed::parse("3E").unwrap();
    assert_eq!(v.prefix, Some(SiPrefix::Exa));
    assert_eq!(SiPrefixed::parse("2e"), Err(DecimalError::Invalid));
}

#[test]
fn huge_prefixed_values_read_back() {
    let v = SiPrefixed { value: Decimal::new(1, 39), prefix: None };
    assert_eq!(v.to_string(), "1e39");
    assert_eq!(SiPrefixed::parse(&v.to_string()), Ok(v));
    let v = SiPrefixed { value: Decimal::new(i128::MIN, 0), prefix: Some(SiPrefix::Kilo) };
    assert_eq!(SiPrefixed::parse(&v.to_string()), Ok(v));
    assert_eq!(
        SiPrefixed { value: Decimal::new(15, -1), prefix: None },
        SiPrefixed { value: Decimal::new(150, -2), prefix: None }
    );
}

#[test]
fn base_value_is_checked_against_the_exponent_range() {
    let v = SiPrefixed { value: Decimal::new(1, i32::MAX), prefix: Some(SiPrefix::Kilo) };
    assert_eq!(v.checked_base_value(), None);
    let v = SiPrefixed { value: Decimal::new(123, -2), prefix: Some(SiPrefix::Kilo) };
    assert_eq!(v.checked_base_value(), Some(Decimal::new(1230, 0)));
}
