use teledildo_core::lookup::{interpolate, scale};

const T: &[(u16, i16)] = &[(100, 0), (200, 100), (400, 200)];

#[test]
fn interpolates_and_hits_endpoints() {
    assert_eq!(interpolate(T, 100), Some(0));
    assert_eq!(interpolate(T, 150), Some(50));
    assert_eq!(interpolate(T, 200), Some(100));
    assert_eq!(interpolate(T, 300), Some(150));
    assert_eq!(interpolate(T, 400), Some(200));
}

#[test]
fn out_of_range_is_none() {
    assert_eq!(interpolate(T, 99), None);
    assert_eq!(interpolate(T, 401), None);
    assert_eq!(interpolate(&[], 5), None);
    assert_eq!(interpolate(&[(7, 7)], 7), Some(7));
    assert_eq!(interpolate(&[(200, 0), (100, 10)], 150), None);
}

#[test]
fn scales() {
    assert_eq!(scale(4095, 3300, 4095), Some(3300));
    assert_eq!(scale(0, 3300, 4095), Some(0));
    assert_eq!(scale(2048, 9900, 4095), Some(4951));
    assert_eq!(scale(1, 1, 0), None);
}

#[test]
fn interpolation_truncates_toward_zero_on_falling_segments() {
    // Falling segment: 10 at x=0 down to -10 at x=3.
    let t: &[(u16, i16)] = &[(0, 10), (3, -10)];
    assert_eq!(interpolate(t, 1), Some(4)); // 10 - 20/3 = 3.33.. rounds toward y0
    assert_eq!(interpolate(t, 2), Some(-3));
    assert_eq!(interpolate(t, 3), Some(-10));
}

#[test]
fn interpolation_stays_within_table_range() {
    let t: &[(u16, i16)] = &[(10, -300), (20, 500), (40, 100), (41, -50)];
    for x in 10..=41u16 {
        let y = interpolate(t, x).unwrap();
        assert!((-300..=500).contains(&y), "x={x} y={y}");
    }
    assert_eq!(interpolate(t, 9), None);
    assert_eq!(interpolate(t, 42), None);
}

#[test]
fn scale_rounds_down_and_refuses_overflow() {
    assert_eq!(scale(1, 3300, 4095), Some(0));
    assert_eq!(scale(2, 3300, 4095), Some(1));
    assert_eq!(scale(u16::MAX, u32::MAX, u16::MAX), Some(u32::MAX));
    assert_eq!(scale(u16::MAX, u32::MAX, 1), None);
    assert_eq!(scale(2, u32::MAX, 2), Some(u32::MAX));
    assert_eq!(scale(3, u32::MAX, 2), None);
}
