use human_units::Duration;
use human_units::FormatSize;
use human_units::Size;

#[test]
fn size_round_trip_examples() {
    for v in [
        0_u64,
        1,
        1023,
        1024,
        1025,
        1 << 20,
        1 << 30,
        1 << 40,
        (1 << 40) + 1,
        u64::MAX,
    ] {
        let text = Size(v).display();
        assert_eq!(Size(v), text.parse().unwrap(), "text = `{}`", text);
    }
}

#[test]
fn duration_round_trip_examples() {
    for (secs, nanos) in [
        (0_u64, 0_u32),
        (0, 1),
        (0, 1000),
        (1, 0),
        (60, 0),
        (3600, 0),
        (86400, 0),
        (86400, 1),
        (123, 456),
        (u64::MAX, 999_999_999),
    ] {
        let text = Duration::new(secs, nanos).display();
        assert_eq!(
            Duration::new(secs, nanos),
            text.parse().unwrap(),
            "text = `{}`",
            text
        );
    }
}

#[test]
fn format_size_reconstruction_examples() {
    // 3 GiB and a half: 3.5 GiB, reconstruction within one GiB below
    let v = 1024_u64 * 1024 * 1024 * 3 + 1024 * 1024 * 512;
    let f = v.format_size();
    assert_eq!("GiB", f.unit);
    let x = 1024_u64 * 1024 * 1024;
    let actual = f.integer as u64 * x + f.fraction as u64 * x / 10;
    assert!(actual <= v && v - actual < x);
    assert_eq!(3, f.integer);
    assert_eq!(5, f.fraction);
}
