use teledildo_core::board::{
    current_to_ma, ntc_table, ntc_to_dc, supply_to_mv, ADC_MAX, ADC_REF_MV, CURRENT_FULL_SCALE_MA,
    MOTOR_PWM_TOP, SERVO_PULSE_MIN, SERVO_PULSE_SPAN, SERVO_PWM_DIVIDER, SERVO_PWM_TOP,
    SUPPLY_FULL_SCALE_MV, SYS_CLK_HZ,
};

#[test]
fn pwm_geometry_matches_the_clock() {
    assert_eq!(SYS_CLK_HZ / (u32::from(MOTOR_PWM_TOP) + 1), 25_000);
    assert_eq!(SYS_CLK_HZ / u32::from(SERVO_PWM_DIVIDER) / (u32::from(SERVO_PWM_TOP) + 1), 50);
    assert_eq!(SERVO_PULSE_MIN, 1_250);
    assert_eq!(SERVO_PULSE_SPAN, 1_250);
    assert_eq!(ADC_MAX, 4_095);
    assert_eq!(ADC_REF_MV, 3_300);
    assert_eq!(CURRENT_FULL_SCALE_MA, 1_650);
    assert_eq!(SUPPLY_FULL_SCALE_MV, 9_900);
}

#[test]
fn ntc_table_is_increasing_and_spans_zero_to_ninety_five() {
    let t = ntc_table();
    assert_eq!(t.len(), 20);
    assert_eq!(t[0], (939, 0));
    assert_eq!(t[19], (3790, 950));
    for w in t.windows(2) {
        assert!(w[0].0 < w[1].0);
        assert_eq!(w[1].1 - w[0].1, 50);
    }
}

#[test]
fn ntc_conversion() {
    assert_eq!(ntc_to_dc(939), Some(0));
    assert_eq!(ntc_to_dc(2048), Some(250));
    assert_eq!(ntc_to_dc(3790), Some(950));
    // Halfway between 20.0 C (1817) and 25.0 C (2048), rounded down.
    assert_eq!(ntc_to_dc(1932), Some(224));
    // Open or shorted probe.
    assert_eq!(ntc_to_dc(938), None);
    assert_eq!(ntc_to_dc(3791), None);
    assert_eq!(ntc_to_dc(0), None);
    assert_eq!(ntc_to_dc(4095), None);
}

#[test]
fn current_and_supply_conversion() {
    assert_eq!(current_to_ma(0), Some(0));
    assert_eq!(current_to_ma(4095), Some(1650));
    assert_eq!(current_to_ma(2048), Some(825));
    assert_eq!(current_to_ma(u16::MAX), Some(26_406));
    assert_eq!(supply_to_mv(0), Some(0));
    assert_eq!(supply_to_mv(4095), Some(9900));
    assert_eq!(supply_to_mv(2048), Some(4951));
    assert_eq!(supply_to_mv(27_108), Some(65_535));
    assert_eq!(supply_to_mv(27_109), None);
    assert_eq!(supply_to_mv(u16::MAX), None);
}
