use arbtest::arbtest;

use human_units::Duration;
use human_units::FormatDuration;
use human_units::FormattedDuration;

#[test]
fn duration_format_test_format_duration() {
    assert_eq!("0 s", Duration::from_secs(0).format_duration().display());
    assert_eq!("1 ns", Duration::from_nanos(1).format_duration().display());
    assert_eq!(
        "1 μs",
        Duration::from_nanos(1000).format_duration().display()
    );
    assert_eq!(
        "1 ms",
        Duration::from_nanos(1000 * 1000).format_duration().display()
    );
    assert_eq!(
        "1.5 ms",
        Duration::from_nanos(1000 * 1000 + 1000 * 1000 / 2)
            .format_duration()
            .display()
    );
    assert_eq!(
        "500 μs",
        Duration::from_nanos(1000 * 1000 / 2)
            .format_duration()
            .display()
    );
    assert_eq!(
        "999 ms",
        Duration::from_nanos(1000 * 1000 * 999)
            .format_duration()
            .display()
    );
    assert_eq!("1 s", Duration::from_secs(1).format_duration().display());
    assert_eq!("1 m", Duration::from_secs(60).format_duration().display());
    assert_eq!(
        "1 h",
        Duration::from_secs(60 * 60).format_duration().display()
    );
    assert_eq!(
        "1 d",
        Duration::from_secs(60 * 60 * 24).format_duration().display()
    );
    assert_eq!(
        "12 h",
        Duration::from_secs(60 * 60 * 12).format_duration().display()
    );
    assert_eq!(
        "12.5 h",
        Duration::from_secs(60 * 60 * 12 + 60 * 60 / 2)
            .format_duration()
            .display()
    );
    assert_eq!(
        "12.5 h",
        Duration::new(60 * 60 * 12 + 60 * 60 / 2, 1000 * 1000 * 1000 - 1)
            .format_duration()
            .display()
    );
    assert_eq!(
        MAX_INTEGER,
        Duration::new(u64::MAX, 999_999_999_u32)
            .format_duration()
            .integer
    );
}

#[test]
fn duration_format_test_format_duration_arbitrary() {
    arbtest(|u| {
        let expected = Duration::new(u.arbitrary()?, u.int_in_range(0..=999_999_999_u32)?);
        let formatted = expected.format_duration();
        let x = unit_to_factor(formatted.unit) as u128;
        let nanoseconds = (formatted.integer as u128) * x + (formatted.fraction as u128) * x / 10;
        let expected_nanos = expected.as_nanos();
        assert!(
            expected_nanos >= nanoseconds && (expected_nanos - nanoseconds) < x,
            "expected = {}\nactual   = {}\nx = {}\nformatted = {}",
            expected_nanos,
            nanoseconds,
            x,
            formatted.display(),
        );
        Ok(())
    });
}

#[test]
fn test_formatted_duration_io() {
    arbtest(|u| {
        let expected = FormattedDuration {
            unit: *u.choose(&UNITS[..])?,
            integer: u.int_in_range(0..=MAX_INTEGER)?,
            fraction: u.int_in_range(0..=9)?,
        };
        let string = expected.display();
        let mut words = string.splitn(2, ' ');
        let number_str = words.next().unwrap();
        let unit = words.next().unwrap().to_string();
        let mut words = number_str.splitn(2, '.');
        let integer: u64 = words.next().unwrap().parse().unwrap();
        let fraction: u8 = match words.next() {
            Some(word) => word.parse().unwrap(),
            None => 0,
        };
        assert_eq!(expected.integer, integer);
        assert_eq!(expected.fraction, fraction);
        assert_eq!(expected.unit, unit, "expected = `{}`", expected.display());
        Ok(())
    });
}

#[test]
fn duration_format_boundaries() {
    assert_eq!(
        "45 s",
        Duration::from_nanos(45000 * 1_000_000)
            .format_duration()
            .display()
    );
    assert_eq!("1.5 h", Duration::from_secs(5400).format_duration().display());
}

fn unit_to_factor(unit: &str) -> u64 {
    match unit {
        "ns" => 1_u64,
        "μs" => 1000_u64,
        "ms" => 1000_u64.pow(2),
        "s" | "" => 1000_u64.pow(3),
        "m" => 60_u64 * 1000_u64.pow(3),
        "h" => 60_u64 * 60_u64 * 1000_u64.pow(3),
        "d" => 24_u64 * 60_u64 * 60_u64 * 1000_u64.pow(3),
        _ => panic!("unknown unit `{}`", unit),
    }
}

const UNITS: [&str; 7] = ["ns", "μs", "ms", "s", "m", "h", "d"];
const MAX_INTEGER: u64 = 213503982334601;
