use teledildo_core::value::Fraction;

#[test]
fn digits_are_left_aligned() {
    assert_eq!(Fraction::from_tcode_digits(b"5"), Fraction::new(5000));
    assert_eq!(Fraction::from_tcode_digits(b"05"), Fraction::new(500));
    assert_eq!(Fraction::from_tcode_digits(b"0500"), Fraction::new(500));
    assert_eq!(Fraction::from_tcode_digits(b"9999"), Some(Fraction::maximum()));
    assert_eq!(Fraction::from_tcode_digits(b"0000"), Some(Fraction::zero()));
}

#[test]
fn digits_reject_bad_input() {
    assert_eq!(Fraction::from_tcode_digits(b""), None);
    assert_eq!(Fraction::from_tcode_digits(b"12345"), None);
    assert_eq!(Fraction::from_tcode_digits(b"12a"), None);
    assert_eq!(Fraction::from_tcode_digits(b"-1"), None);
}

#[test]
fn scale_hits_endpoints() {
    assert_eq!(Fraction::zero().scale_to(4999), 0);
    assert_eq!(Fraction::maximum().scale_to(4999), 4999);
    assert_eq!(Fraction::half().scale_to(4999), 2500);
    assert_eq!(Fraction::maximum().scale_to(u16::MAX), 65_529);
    assert_eq!(Fraction::maximum().scale_to(0), 0);
}

#[test]
fn construction_bounds() {
    assert_eq!(Fraction::new(10_000), None);
    assert_eq!(Fraction::saturating(60_000), Fraction::maximum());
    assert_eq!(Fraction::saturating_u32(u32::MAX), Fraction::maximum());
    assert_eq!(Fraction::maximum().saturating_add(1), Fraction::maximum());
    assert_eq!(Fraction::zero().saturating_sub(1), Fraction::zero());
    assert_eq!(Fraction::maximum().percent(), 99);
}

#[test]
fn fraction_constants_and_raw() {
    assert_eq!(Fraction::SCALE, 10_000);
    assert_eq!(Fraction::zero().raw(), 0);
    assert_eq!(Fraction::half().raw(), 5_000);
    assert_eq!(Fraction::maximum().raw(), 9_999);
    assert_eq!(Fraction::default(), Fraction::zero());
    assert_eq!(Fraction::new(9_999).map(Fraction::raw), Some(9_999));
    assert_eq!(Fraction::saturating(1_234).raw(), 1_234);
    assert_eq!(Fraction::saturating_u32(70_000).raw(), 9_999);
    assert_eq!(Fraction::saturating_u32(42).raw(), 42);
}

#[test]
fn fraction_arithmetic() {
    let a = Fraction::new(1_200).unwrap();
    let b = Fraction::new(300).unwrap();
    assert_eq!(a.min(b), b);
    assert_eq!(b.min(a), b);
    assert_eq!(a.abs_diff(b), 900);
    assert_eq!(b.abs_diff(a), 900);
    assert_eq!(a.saturating_add(34).raw(), 1_234);
    assert_eq!(a.saturating_sub(200).raw(), 1_000);
    assert_eq!(b.saturating_sub(400), Fraction::zero());
    assert_eq!(Fraction::new(9_000).unwrap().saturating_add(2_000), Fraction::maximum());
    assert_eq!(a.percent(), 12);
    assert_eq!(Fraction::new(1_999).unwrap().percent(), 19);
    assert_eq!(Fraction::new(2_500).unwrap().scale_to(4_999), 1_250);
    assert_eq!(Fraction::new(1).unwrap().scale_to(4_999), 0);
}

#[test]
fn magnitude_digits_scenarios() {
    assert_eq!(Fraction::from_tcode_digits(b"1").map(Fraction::raw), Some(1_000));
    assert_eq!(Fraction::from_tcode_digits(b"12").map(Fraction::raw), Some(1_200));
    assert_eq!(Fraction::from_tcode_digits(b"123").map(Fraction::raw), Some(1_230));
    assert_eq!(Fraction::from_tcode_digits(b"1234").map(Fraction::raw), Some(1_234));
    assert_eq!(Fraction::from_tcode_digits(b"0001").map(Fraction::raw), Some(1));
    assert_eq!(Fraction::from_tcode_digits(b" 1"), None);
}
