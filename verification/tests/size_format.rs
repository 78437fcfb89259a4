use arbtest::arbtest;

use human_units::FormatSize;
use human_units::FormattedSize;
use human_units::Size;

#[test]
fn test_format_bytes() {
    assert_eq!("512 B", 512_u64.format_size().display());
    assert_eq!("0 B", 0_u64.format_size().display());
    assert_eq!("1 B", 1_u64.format_size().display());
    assert_eq!("1 KiB", 1024_u64.format_size().display());
    assert_eq!("512 KiB", (512_u64 * 1024).format_size().display());
    assert_eq!("1023 B", 1023_u64.format_size().display());
    assert_eq!("1023 KiB", (1023_u64 * 1024).format_size().display());
    assert_eq!("1 MiB", (1024_u64 * 1024).format_size().display());
    assert_eq!("1 GiB", (1024_u64 * 1024 * 1024).format_size().display());
    assert_eq!("1023 MiB", (1024_u64 * 1024 * 1023).format_size().display());
    assert_eq!(
        "3.5 GiB",
        (1024_u64 * 1024 * 1024 * 3 + 1024_u64 * 1024 * 1024 / 2)
            .format_size()
            .display()
    );
    assert_eq!("3.9 GiB", (u32::MAX as u64).format_size().display());
    assert_eq!("15.9 EiB", u64::MAX.format_size().display());
}

#[test]
fn test_format_bytes_arbitrary() {
    arbtest(|u| {
        let expected: u64 = u.arbitrary()?;
        let bytes = expected.format_size();
        let x = unit_to_factor(bytes.unit);
        let actual = (bytes.integer as u64) * x + (bytes.fraction as u64) * x / 10;
        assert!(
            expected >= actual && (expected - actual) < x,
            "expected = {}, actual = {}",
            expected,
            actual
        );
        Ok(())
    });
}

#[test]
fn test_shift_division() {
    arbtest(|u| {
        let number: u64 = u.arbitrary()?;
        let expected = number / 1024;
        let actual = number >> 10;
        assert_eq!(expected, actual);
        Ok(())
    });
}

#[test]
fn test_shift_remainder() {
    arbtest(|u| {
        let number: u64 = u.arbitrary()?;
        let expected = number % 1024;
        let actual = number & (1024 - 1);
        assert_eq!(expected, actual);
        Ok(())
    });
}

#[test]
fn test_formatted_size_io() {
    arbtest(|u| {
        let expected = FormattedSize {
            unit: *u.choose(&UNITS[..])?,
            integer: u.int_in_range(0..=MAX_INTEGER)?,
            fraction: u.int_in_range(0..=9)?,
        };
        let string = expected.display();
        let mut words = string.splitn(2, ' ');
        let number_str = words.next().unwrap();
        let unit = words.next().unwrap().to_string();
        let mut words = number_str.splitn(2, '.');
        let integer: u16 = words.next().unwrap().parse().unwrap();
        let fraction: u8 = match words.next() {
            Some(word) => word.parse().unwrap(),
            None => 0,
        };
        assert_eq!(expected.integer, integer);
        assert_eq!(expected.fraction, fraction);
        assert_eq!(expected.unit, unit, "expected = `{}`", expected.display());
        Ok(())
    });
}

#[test]
fn size_trait_impls_agree() {
    assert_eq!("1 KiB", 1024_usize.format_size().display());
    assert_eq!("1 KiB", Size(1024).format_size().display());
}

fn unit_to_factor(unit: &str) -> u64 {
    match unit {
        "B" => 1_u64,
        "KiB" => 1024_u64,
        "MiB" => 1024_u64.pow(2),
        "GiB" => 1024_u64.pow(3),
        "TiB" => 1024_u64.pow(4),
        "PiB" => 1024_u64.pow(5),
        "EiB" => 1024_u64.pow(6),
        _ => panic!("unknown unit `{}`", unit),
    }
}

const UNITS: [&str; 7] = ["B", "KiB", "MiB", "GiB", "TiB", "PiB", "EiB"];
const MAX_INTEGER: u16 = 1023;
