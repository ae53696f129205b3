use orbital_core::decimal::Decimal;
use orbital_core::duration::{Duration, DurationFromStrError};

fn to_f64(d: Decimal) -> f64 {
    if d.exponent >= 0 {
        d.mantissa as f64 * 10f64.powi(d.exponent)
    } else {
        d.mantissa as f64 / 10f64.powi(-d.exponent)
    }
}

#[test]
fn parse_duration_from_str() {
    let duration: Duration = "1d 2h 30m 45.5s".parse().unwrap();
    assert_eq!(duration.days, 1);
    assert_eq!(duration.hours, 2);
    assert_eq!(duration.minutes, 30);
    assert_eq!(to_f64(duration.seconds), 45.5);
}

#[test]
fn parse_duration_from_str_with_only_seconds() {
    let duration: Duration = "45.5s".parse().unwrap();
    assert_eq!(duration.days, 0);
    assert_eq!(duration.hours, 0);
    assert_eq!(duration.minutes, 0);
    assert_eq!(to_f64(duration.seconds), 45.5);
}

#[test]
fn parse_duration_from_str_with_invalid_unit() {
    let result: Result<Duration, _> = "1x".parse();
    assert!(result.is_err());
}

#[test]
fn parse_duration_from_f64() {
    let duration = Duration::from_seconds(Decimal::new(900615, -1));
    assert_eq!(duration.days, 1);
    assert_eq!(duration.hours, 1);
    assert_eq!(duration.minutes, 1);
    assert_eq!(to_f64(duration.seconds), 1.5);
}

#[test]
fn serialize_duration_to_yaml() {
    let duration = Duration {
        days: 1,
        hours: 2,
        minutes: 30,
        seconds: Decimal::new(455, -1),
    };
    let yaml = serde_yaml::to_string(&duration.to_string()).unwrap();
    assert_eq!(yaml.trim(), "1d 2h 30m 45.5s");
}

#[test]
fn deserialize_duration_from_yaml() {
    let yaml = "1d 2h 30m 45.5s";
    let text: String = serde_yaml::from_str(yaml).unwrap();
    let duration = Duration::parse(&text).unwrap();
    assert_eq!(duration.days, 1);
    assert_eq!(duration.hours, 2);
    assert_eq!(duration.minutes, 30);
    assert_eq!(to_f64(duration.seconds), 45.5);
}

#[test]
fn unknown_unit_names_the_unit_bytes() {
    match Duration::parse("1x") {
        Err(DurationFromStrError::MalformedString(word, range)) => {
            assert_eq!(word, "1x");
            assert_eq!(range, 1..2);
        }
        Ok(_) => panic!("1x is not a duration"),
    }
}

#[test]
fn bad_number_names_the_number_bytes() {
    match Duration::parse("2h 1.2.3m") {
        Err(DurationFromStrError::MalformedString(word, range)) => {
            assert_eq!(word, "1.2.3m");
            assert_eq!(range, 0..5);
        }
        Ok(_) => panic!("1.2.3m is not a duration"),
    }
}

#[test]
fn unit_range_counts_bytes_not_characters() {
    match Duration::parse("5µs") {
        Err(DurationFromStrError::MalformedString(word, range)) => {
            assert_eq!(word, "5µs");
            assert_eq!(range, 1..4);
        }
        Ok(_) => panic!("µs is not a unit here"),
    }
}

#[test]
fn first_malformed_word_is_reported() {
    match Duration::parse("3q 4z") {
        Err(DurationFromStrError::MalformedString(word, _)) => assert_eq!(word, "3q"),
        Ok(_) => panic!("not a duration"),
    }
}

#[test]
fn bare_number_counts_as_seconds() {
    let d = Duration::parse("90").unwrap();
    assert_eq!((d.days, d.hours, d.minutes), (0, 0, 0));
    assert_eq!(to_f64(d.seconds), 90.0);
}

#[test]
fn same_unit_words_are_summed() {
    let d = Duration::parse("1h 2hours\t3 4s 5sec").unwrap();
    assert!(Duration::parse("3 hour").is_err());
    assert_eq!(d.hours, 3);
    assert_eq!(to_f64(d.seconds), 12.0);
}

#[test]
fn long_unit_words_are_read() {
    let d = Duration::parse("2days 3hours 4minutes 5seconds").unwrap();
    assert_eq!((d.days, d.hours, d.minutes), (2, 3, 4));
    assert_eq!(to_f64(d.seconds), 5.0);
}

#[test]
fn fractional_days_carry_sixty_to_one() {
    let d = Duration::parse("1.5d").unwrap();
    assert_eq!((d.days, d.hours, d.minutes), (1, 30, 0));
    let d = Duration::parse("1.5m").unwrap();
    assert_eq!(d.minutes, 1);
    assert_eq!(to_f64(d.seconds), 30.0);
}

#[test]
fn empty_text_is_no_time() {
    let d = Duration::parse("  ").unwrap();
    assert_eq!((d.days, d.hours, d.minutes), (0, 0, 0));
    assert_eq!(d.seconds.mantissa, 0);
}

#[test]
fn figures_keep_every_decimal_place() {
    let d = Duration::parse("1.0000000001s").unwrap();
    assert_eq!((d.seconds.mantissa, d.seconds.exponent), (10_000_000_001, -10));
    let d = Duration::parse("1.5s 0.00000000000000000001s").unwrap();
    assert_eq!((d.seconds.mantissa, d.seconds.exponent), (150_000_000_000_000_000_001, -20));
    let d = Duration::parse("1.25d").unwrap();
    assert_eq!((d.days, d.hours, d.minutes), (1, 15, 0));
}

#[test]
fn zero_duration_is_written_as_zero() {
    assert_eq!(Duration::zero().to_string(), "0");
}

#[test]
fn seconds_are_written_to_one_place_ties_to_even() {
    let d = |m: i128, e: i32| Duration { days: 0, hours: 0, minutes: 0, seconds: Decimal::new(m, e) };
    assert_eq!(d(45, 0).to_string(), "45.0s");
    assert_eq!(d(1225, -2).to_string(), "12.2s");
    assert_eq!(d(1235, -2).to_string(), "12.4s");
    assert_eq!(d(1236, -2).to_string(), "12.4s");
    assert_eq!(d(4, -2).to_string(), "0.0s");
    assert_eq!(d(5, -1).to_string(), "0.5s");
}

#[test]
fn written_duration_reads_back() {
    let written = Duration { days: 3, hours: 0, minutes: 7, seconds: Decimal::new(125, -1) };
    let text = written.to_string();
    assert_eq!(text, "3d 7m 12.5s");
    let back = Duration::parse(&text).unwrap();
    assert_eq!((back.days, back.hours, back.minutes), (3, 0, 7));
    assert_eq!(to_f64(back.seconds), 12.5);
}

#[test]
fn seconds_split_into_parts() {
    let d = Duration::from_seconds(Decimal::new(86399, 0));
    assert_eq!((d.days, d.hours, d.minutes), (0, 23, 59));
    assert_eq!(to_f64(d.seconds), 59.0);
    let d = Duration::from_seconds(Decimal::new(-905, -1));
    assert_eq!((d.days, d.hours, d.minutes), (0, 0, 0));
    assert_eq!(to_f64(d.seconds), -30.5);
}

#[test]
fn length_in_seconds_counts_every_part() {
    let d = Duration { days: 1, hours: 2, minutes: 30, seconds: Decimal::new(455, -1) };
    let s = d.as_seconds();
    assert_eq!(s.exponent, -1);
    assert_eq!(s.mantissa, 954_455);
    assert_eq!(to_f64(s), 95445.5);
}

#[test]
fn seconds_with_a_positive_exponent_are_split() {
    let d = Duration::from_seconds(Decimal::new(9, 4));
    assert_eq!((d.days, d.hours, d.minutes), (1, 1, 0));
    assert_eq!(to_f64(d.seconds), 0.0);
}

#[test]
fn length_in_seconds_keeps_negative_seconds() {
    let d = Duration { days: 0, hours: 1, minutes: 0, seconds: Decimal::new(-15, -1) };
    let s = d.as_seconds();
    assert_eq!((s.mantissa, s.exponent), (35_985, -1));
}

#[test]
fn default_duration_is_zero() {
    assert_eq!(Duration::default(), Duration::zero());
}

#[test]
fn large_second_figures_are_read_and_written_back() {
    let d = Duration::parse("123456789012345.5s").unwrap();
    assert_eq!((d.days, d.hours, d.minutes), (0, 0, 0));
    assert_eq!((d.seconds.mantissa, d.seconds.exponent), (1_234_567_890_123_455, -1));
    assert_eq!(d.to_string(), "123456789012345.5s");
    let big = Duration {
        days: 2,
        hours: 0,
        minutes: 0,
        seconds: Decimal::new(98765432109876543210987654321098765, -1),
    };
    let back = Duration::parse(&big.to_string()).unwrap();
    assert_eq!(back.days, 2);
    assert_eq!(back.seconds, Decimal::new(98765432109876543210987654321098765, -1));
}

#[test]
fn totals_past_the_kept_range_name_the_word() {
    let text = "1s 170141183460469231731687303715884105727s";
    match Duration::parse(text) {
        Err(DurationFromStrError::MalformedString(word, range)) => {
            assert_eq!(word, "170141183460469231731687303715884105727s");
            assert_eq!(range, 0..39);
        }
        Ok(_) => panic!("beyond the kept range"),
    }
}

#[test]
fn checked_conversions_refuse_what_does_not_fit() {
    assert_eq!(Duration::checked_from_seconds(Decimal::new(1, 39)), None);
    assert_eq!(
        Duration::checked_from_seconds(Decimal::new(9, 4)),
        Some(Duration::from_seconds(Decimal::new(9, 4)))
    );
    let d = Duration { days: 1, hours: 0, minutes: 0, seconds: Decimal::new(5, -40) };
    assert_eq!(d.checked_as_seconds(), None);
    let d = Duration { days: 1, hours: 2, minutes: 30, seconds: Decimal::new(455, -1) };
    assert_eq!(d.checked_as_seconds(), Some(Decimal::new(954455, -1)));
}

#[test]
fn durations_compare_seconds_by_value() {
    let a = Duration { days: 0, hours: 1, minutes: 0, seconds: Decimal::new(15, -1) };
    let b = Duration { days: 0, hours: 1, minutes: 0, seconds: Decimal::new(1500, -3) };
    assert_eq!(a, b);
    assert_eq!(Duration::parse("1h 1.5s").unwrap(), a);
}
