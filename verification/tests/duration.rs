use arbtest::arbtest;

use human_units::Duration;

const MAX_NANOSECONDS: u128 =
    (u64::MAX as u128) * 1_000_000_000_u128 + 1_000_000_000_u128 - 1_u128;

#[test]
fn test_duration_display() {
    assert_eq!("123s", Duration::from_secs(123).display());
    assert_eq!("2m", Duration::from_secs(120).display());
    assert_eq!("1d", Duration::from_secs(24 * 60 * 60).display());
    assert_eq!("23h", Duration::from_secs(23 * 60 * 60).display());
    assert_eq!("0s", Duration::from_secs(0).display());
    assert_eq!("1μs", Duration::from_nanos(1000).display());
}

#[test]
fn test_duration_parse() {
    assert_eq!(Duration::from_secs(1), "1".parse().unwrap());
    assert_eq!(Duration::from_nanos(1000), "1μs".parse().unwrap());
    assert_eq!(Duration::from_secs(120), "2m".parse().unwrap());
    assert_eq!(
        "Err(DurationError)",
        format!("{:?}", "2km".parse::<Duration>())
    );
    assert_eq!(
        "Err(DurationError)",
        format!("{:?}", "ms".parse::<Duration>())
    );
    assert_eq!(
        "Err(DurationError)",
        format!("{:?}", format!("{}0", u128::MAX).parse::<Duration>())
    );
}

#[test]
fn duration_test_deref() {
    assert_eq!(1, Duration::from_secs(1).as_secs());
    let mut tmp = Duration::from_secs(1);
    tmp = tmp.checked_add(Duration::from_secs(1)).unwrap();
    assert_eq!(Duration::from_secs(2), tmp);
}

#[test]
fn duration_test_from_into() {
    let d1 = Duration::from_secs(1);
    let d2: u128 = d1.into();
    let d3 = Duration::new((d2 / 1_000_000_000) as u64, (d2 % 1_000_000_000) as u32);
    assert_eq!(d1, d3);
    assert_eq!(d1.as_nanos(), d2);
}

#[test]
fn duration_display_parse_symmetry() {
    arbtest(|u| {
        let expected = Duration::new(u.arbitrary()?, u.int_in_range(0..=999_999_999_u32)?);
        let string = expected.display();
        let actual: Duration = string.parse().unwrap();
        assert_eq!(expected, actual, "string = `{}`", string);
        Ok(())
    });
}

#[test]
fn duration_parse_display_symmetry() {
    arbtest(|u| {
        let (unit, max) = *u
            .choose(&[
                ("ns", MAX_NANOSECONDS),
                ("μs", MAX_NANOSECONDS / 1000_u128),
                ("ms", MAX_NANOSECONDS / (1000_u128 * 1000_u128)),
                ("s", MAX_NANOSECONDS / (1000_u128 * 1000_u128 * 1000_u128)),
                (
                    "m",
                    MAX_NANOSECONDS / (1000_u128 * 1000_u128 * 1000_u128 * 60_u128),
                ),
                (
                    "h",
                    MAX_NANOSECONDS / (1000_u128 * 1000_u128 * 1000_u128 * 60_u128 * 60_u128),
                ),
                (
                    "d",
                    MAX_NANOSECONDS
                        / (1000_u128 * 1000_u128 * 1000_u128 * 60_u128 * 60_u128 * 24_u128),
                ),
            ])
            .unwrap();
        let number: u128 = u.int_in_range(0_u128..=max)?;
        let prefix = *u.choose(&["", " ", "  "]).unwrap();
        let infix = *u.choose(&["", " ", "  "]).unwrap();
        let suffix = *u.choose(&["", " ", "  "]).unwrap();
        let expected = format!("{}{}{}{}{}", prefix, number, infix, unit, suffix);
        let expected_duration: Duration = expected.parse().unwrap();
        let actual = expected_duration.display();
        let actual_duration: Duration = actual.parse().unwrap();
        assert_eq!(
            expected_duration, actual_duration,
            "string 1 = `{}`, string 2 = `{}`",
            expected, actual
        );
        assert!(expected == actual || actual_duration.as_nanos() % number == 0 || number == 0);
        Ok(())
    });
}

#[test]
fn duration_serde_test_max_string_len() {
    let string = Duration::new(u64::MAX, 999_999_999_u32).display();
    assert_eq!(
        Duration::MAX_STRING_LEN,
        string.len(),
        "string = `{}`",
        string
    );
}

#[test]
fn duration_boundary_literals() {
    assert_eq!("1m", Duration::from_secs(60).display());
    assert_eq!("1d", Duration::from_secs(86400).display());
    assert_eq!("1μs", Duration::from_nanos(1000).display());
    assert_eq!(Duration::from_secs(60), "60s".parse().unwrap());
    assert_eq!(Duration::from_secs(86400), "86400s".parse().unwrap());
    assert_eq!(Duration::from_nanos(1000), "1000ns".parse().unwrap());
}

#[test]
fn duration_parse_rejects_seconds_overflow() {
    // one more second than u64 can hold
    assert!("18446744073709551616s".parse::<Duration>().is_err());
    // one more day than the range can hold
    assert!("213503982334602d".parse::<Duration>().is_err());
    assert_eq!(
        Duration::new(18446744073709551615, 254000000),
        "18446744073709551615254ms".parse().unwrap()
    );
}
