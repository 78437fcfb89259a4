use arbtest::arbtest;

use human_units::format_duration::FormatDuration;
use human_units::Duration;

#[test]
fn format_duration_test_format_duration() {
    assert_eq!("0 s", Duration::from_secs(0).format_duration().display());
    assert_eq!("1 ns", Duration::from_nanos(1).format_duration().display());
    assert_eq!(
        "1 μs",
        Duration::from_nanos(1000).format_duration().display()
    );
    assert_eq!(
        "1 ms",
        Duration::from_nanos(1000 * 1000).format_duration().display()
    );
    assert_eq!(
        "1.5 ms",
        Duration::from_nanos(1000 * 1000 + 1000 * 1000 / 2)
            .format_duration()
            .display()
    );
    assert_eq!(
        "500 μs",
        Duration::from_nanos(1000 * 1000 / 2)
            .format_duration()
            .display()
    );
    assert_eq!(
        "999 ms",
        Duration::from_nanos(1000 * 1000 * 999)
            .format_duration()
            .display()
    );
    assert_eq!("1 s", Duration::from_secs(1).format_duration().display());
    assert_eq!("1 m", Duration::from_secs(60).format_duration().display());
    assert_eq!(
        "1 h",
        Duration::from_secs(60 * 60).format_duration().display()
    );
    assert_eq!(
        "1 d",
        Duration::from_secs(60 * 60 * 24).format_duration().display()
    );
    assert_eq!(
        "12 h",
        Duration::from_secs(60 * 60 * 12).format_duration().display()
    );
    assert_eq!(
        "12.5 h",
        Duration::from_secs(60 * 60 * 12 + 60 * 60 / 2)
            .format_duration()
            .display()
    );
    assert_eq!(
        "12.5 h",
        Duration::new(60 * 60 * 12 + 60 * 60 / 2, 1000 * 1000 * 1000 - 1)
            .format_duration()
            .display()
    );
}

#[test]
fn format_duration_test_format_duration_arbitrary() {
    arbtest(|u| {
        let expected = Duration::new(u.arbitrary()?, u.int_in_range(0..=999_999_999_u32)?);
        let formatted = expected.format_duration();
        let x = unit_to_factor(formatted.unit) as u128;
        let nanoseconds = (formatted.integer as u128) * x + (formatted.fraction as u128) * x / 10;
        let expected_nanos = expected.as_nanos();
        assert!(
            expected_nanos >= nanoseconds && (expected_nanos - nanoseconds) < x,
            "expected = {}\nactual   = {}\nx = {}\nformatted = {}",
            expected_nanos,
            nanoseconds,
            x,
            formatted.display(),
        );
        Ok(())
    });
}

fn unit_to_factor(unit: &str) -> u64 {
    match unit {
        "ns" => 1_u64,
        "μs" => 1000_u64,
        "ms" => 1000_u64.pow(2),
        "s" | "" => 1000_u64.pow(3),
        "m" => 60_u64 * 1000_u64.pow(3),
        "h" => 60_u64 * 60_u64 * 1000_u64.pow(3),
        "d" => 24_u64 * 60_u64 * 60_u64 * 1000_u64.pow(3),
        _ => panic!("unknown unit `{}`", unit),
    }
}
