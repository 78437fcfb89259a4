use arbtest::arbtest;

use human_units::Size;

#[test]
fn test_display() {
    assert_eq!("0", Size(0).display());
    assert_eq!("1023", Size(1023).display());
    assert_eq!("1k", Size(1024).display());
    assert_eq!("1025", Size(1025).display());
}

#[test]
fn test_parse() {
    assert_eq!("Err(SizeError)", format!("{:?}", "2km".parse::<Size>()));
    assert_eq!("Err(SizeError)", format!("{:?}", "2s".parse::<Size>()));
    assert_eq!("Err(SizeError)", format!("{:?}", "k".parse::<Size>()));
    assert_eq!("Err(SizeError)", format!("{:?}", "".parse::<Size>()));
    assert_eq!(
        "Err(SizeError)",
        format!("{:?}", format!("{}0", u64::MAX).parse::<Size>())
    );
}

#[test]
fn size_test_deref() {
    assert_eq!(1, Size(1).0);
    let mut tmp = Size(1);
    tmp.0 += 1;
    assert_eq!(2, tmp.0);
}

#[test]
fn size_test_from_into() {
    let d1 = Size(1);
    let d2: u64 = d1.into();
    let d3: Size = d2.into();
    assert_eq!(d1, d3);
    assert_eq!(d1.0, d2);
}

#[test]
fn size_display_parse_symmetry() {
    arbtest(|u| {
        let expected = Size(u.arbitrary()?);
        let string = expected.display();
        let actual: Size = string.parse().unwrap();
        assert_eq!(expected, actual, "string = `{}`", string);
        Ok(())
    });
}

#[test]
fn size_parse_display_symmetry() {
    arbtest(|u| {
        let (unit, max) = *u
            .choose(&[
                ("", u64::MAX),
                ("k", u64::MAX >> 10),
                ("m", u64::MAX >> 20),
                ("g", u64::MAX >> 30),
                ("t", u64::MAX >> 40),
            ])
            .unwrap();
        let mut unit = unit.to_string();
        if u.arbitrary::<bool>()? {
            unit.make_ascii_uppercase();
        }
        let number: u64 = u.int_in_range(0_u64..=max)?;
        let prefix = *u.choose(&["", " ", "  "]).unwrap();
        let infix = *u.choose(&["", " ", "  "]).unwrap();
        let suffix = *u.choose(&["", " ", "  "]).unwrap();
        let expected = format!("{}{}{}{}{}", prefix, number, infix, unit, suffix);
        let expected_size: Size = expected.parse().unwrap();
        let actual = expected_size.display();
        let actual_size: Size = actual.parse().unwrap();
        assert_eq!(
            expected_size, actual_size,
            "string 1 = `{}`, string 2 = `{}`",
            expected, actual
        );
        assert!(expected == actual || number == 0 || actual_size.0 % number == 0);
        Ok(())
    });
}

#[test]
fn size_serde_test_max_string_len() {
    let string = Size(u64::MAX).display();
    assert_eq!(Size::MAX_STRING_LEN, string.len());
}

#[test]
fn size_parse_accepts_whitespace_and_case() {
    assert_eq!(Size(2048), "  2 K  ".parse::<Size>().unwrap());
    assert_eq!(Size(5 << 20), "5M".parse::<Size>().unwrap());
    assert_eq!(Size(3 << 30), " 3 g".parse::<Size>().unwrap());
    assert_eq!(Size(7 << 40), "7T ".parse::<Size>().unwrap());
    assert_eq!(Size(42), "42".parse::<Size>().unwrap());
}

#[test]
fn size_parse_rejects_multiplication_overflow() {
    // a literal that fits u64 but overflows once scaled
    assert!(format!("{}k", u64::MAX).parse::<Size>().is_err());
    assert!("18014398509481984t".parse::<Size>().is_err());
}
