use teledildo_core::governor::{
    CoastReason, Disposition, Fault, Governor, HeatBudget, Limits, LimitsError, Outputs, Sensors,
    State, AXIS_LIST, LINEAR_CHANNELS, VIBE_CHANNELS,
};
use teledildo_core::tcode::{Axis, AxisKind, Command, DeviceCommand, Modifier};
use teledildo_core::value::Fraction;

fn f(raw: u16) -> Fraction {
    Fraction::new(raw).unwrap()
}

fn vibe(index: u8, raw: u16, modifier: Modifier) -> Command {
    Command::Move { axis: Axis { kind: AxisKind::Vibrate, index }, target: f(raw), modifier }
}

fn run(g: &mut Governor, from_ms: u64, to_ms: u64, step: u64) -> Outputs {
    let mut t = from_ms;
    let mut out = g.outputs();
    while t <= to_ms {
        out = g.tick(t, &Sensors::default());
        t += step;
    }
    out
}

#[test]
fn defaults_validate() {
    assert_eq!(Limits::default().validated(), Ok(Limits::default()));
    let mut bad = Limits::default();
    bad.vibe_slew_per_ms = 0;
    assert_eq!(bad.validated(), Err(LimitsError::ZeroSlew));
    bad = Limits::default();
    bad.heat.derate = Fraction::maximum();
    assert_eq!(bad.validated(), Err(LimitsError::DerateAboveCeiling));
}

#[test]
fn idle_until_commanded_then_ceiling_and_slew_apply() {
    let mut g = Governor::new(Limits::default());
    assert_eq!(g.tick(0, &Sensors::default()), Outputs::off());
    assert_eq!(g.state(), State::Idle);

    assert_eq!(g.handle(&vibe(0, 9999, Modifier::Immediate), 0), Disposition::Applied);
    assert_eq!(g.state(), State::Active);
    let out = g.tick(1, &Sensors::default());
    assert_eq!(out.vibe[0], f(20)); // 20 raw units per ms
    assert!(out.driver_enable);
    let out = run(&mut g, 2, 2000, 1);
    assert_eq!(out.vibe[0], Limits::default().max_vibe);
}

#[test]
fn stop_command_ramps_down_and_disables_driver() {
    let mut g = Governor::new(Limits::default());
    g.handle(&vibe(0, 5000, Modifier::Immediate), 0);
    run(&mut g, 0, 1000, 1);
    g.handle(&Command::Device(DeviceCommand::Stop), 1000);
    assert_eq!(g.state(), State::Coasting(CoastReason::StopCommand));
    let out = run(&mut g, 1001, 2000, 1);
    assert_eq!(out, Outputs::off());
    // Next move resumes.
    g.handle(&vibe(0, 1000, Modifier::Immediate), 2001);
    assert_eq!(g.state(), State::Active);
}

#[test]
fn link_timeout_coasts() {
    let mut g = Governor::new(Limits::default());
    g.handle(&vibe(1, 5000, Modifier::Immediate), 0);
    run(&mut g, 0, 2000, 10);
    assert_eq!(g.state(), State::Active);
    run(&mut g, 2010, 2010, 1);
    assert_eq!(g.state(), State::Coasting(CoastReason::LinkTimeout));
    let out = run(&mut g, 2020, 3000, 10);
    assert_eq!(out.vibe[1], Fraction::zero());
    assert!(!out.driver_enable);
}

#[test]
fn link_down_holds_linear_and_zeroes_vibe() {
    let mut g = Governor::new(Limits::default());
    let stroke = Command::Move {
        axis: Axis { kind: AxisKind::Linear, index: 0 },
        target: f(7000),
        modifier: Modifier::Immediate,
    };
    g.handle(&stroke, 0);
    g.handle(&vibe(0, 5000, Modifier::Immediate), 0);
    run(&mut g, 0, 1000, 1);
    g.link_down();
    let out = run(&mut g, 1001, 2000, 1);
    assert_eq!(out.vibe[0], Fraction::zero());
    assert_eq!(out.linear[0], f(7000));
    assert!(out.driver_enable); // linear still holding
}

#[test]
fn sensor_fault_latches_and_ignores_commands() {
    let mut g = Governor::new(Limits::default());
    g.handle(&vibe(0, 5000, Modifier::Immediate), 0);
    run(&mut g, 0, 500, 1);
    let hot = Sensors { temperature_dc: Some(425), ..Sensors::default() };
    assert_eq!(g.tick(501, &hot), Outputs::off());
    assert_eq!(g.state(), State::Faulted(Fault::OverTemperature));
    assert_eq!(
        g.handle(&vibe(0, 5000, Modifier::Immediate), 502),
        Disposition::IgnoredFaulted
    );
    assert_eq!(run(&mut g, 503, 5000, 1), Outputs::off());
    // Still hot: cannot clear.
    assert_eq!(g.clear_fault(&hot), State::Faulted(Fault::OverTemperature));
    // Cooled: clears to Idle, outputs stay off until commanded.
    assert_eq!(g.clear_fault(&Sensors::default()), State::Idle);
    assert_eq!(g.tick(5001, &Sensors::default()), Outputs::off());
}

#[test]
fn reported_fault_takes_effect_immediately() {
    let mut g = Governor::new(Limits::default());
    g.handle(&vibe(0, 5000, Modifier::Immediate), 0);
    run(&mut g, 0, 500, 1);
    assert!(g.outputs().driver_enable);
    g.report(Fault::EmergencyStop);
    assert_eq!(g.outputs(), Outputs::off());
    assert_eq!(g.state(), State::Faulted(Fault::EmergencyStop));
    // A later, different fault does not overwrite the first cause.
    g.report(Fault::Hardware);
    assert_eq!(g.state(), State::Faulted(Fault::EmergencyStop));
}

#[test]
fn other_sensor_faults() {
    let l = Limits::default();
    let s = Sensors { motor_current_ma: Some(l.max_current_ma + 1), ..Sensors::default() };
    assert_eq!(s.violation(&l), Some(Fault::OverCurrent));
    let s = Sensors { supply_mv: Some(l.min_supply_mv - 1), ..Sensors::default() };
    assert_eq!(s.violation(&l), Some(Fault::UnderVoltage));
}

#[test]
fn thermal_budget_derates_and_recovers() {
    let mut limits = Limits::default();
    limits.heat = HeatBudget {
        limit: 5_000 * 1_000, // one second at 50 % above the baseline
        cool_per_ms: 0,
        derate: f(1000),
    };
    let mut g = Governor::new(limits);
    g.handle(&vibe(0, 5000, Modifier::Immediate), 0);
    // Keep the link alive while integrating.
    let mut t = 0;
    let mut out = Outputs::off();
    while t <= 2000 {
        g.handle(&vibe(0, 5000, Modifier::Immediate), t);
        out = g.tick(t, &Sensors::default());
        t += 1;
    }
    assert!(g.is_derated(0));
    assert_eq!(out.vibe[0], f(1000));
    assert!(!g.is_derated(1));
    // Clearing a fault resets the budget.
    g.report(Fault::Hardware);
    g.clear_fault(&Sensors::default());
    assert!(!g.is_derated(0));
}

#[test]
fn unsupported_axes_are_ignored() {
    let mut g = Governor::new(Limits::default());
    let rot = Command::Move {
        axis: Axis { kind: AxisKind::Rotate, index: 0 },
        target: f(1),
        modifier: Modifier::Immediate,
    };
    assert_eq!(g.handle(&rot, 0), Disposition::IgnoredUnsupportedAxis);
    assert_eq!(
        g.handle(&vibe(9, 1, Modifier::Immediate), 0),
        Disposition::IgnoredUnsupportedAxis
    );
    assert_eq!(g.state(), State::Idle);
    assert_eq!(
        g.handle(&Command::Device(DeviceCommand::Identify), 0),
        Disposition::Reply(DeviceCommand::Identify)
    );
}

#[test]
fn huge_time_gap_is_clamped() {
    let mut g = Governor::new(Limits::default());
    g.handle(&vibe(0, 8000, Modifier::Immediate), 0);
    g.tick(0, &Sensors::default());
    // Keep the link alive, then jump the clock a long way.
    g.handle(&vibe(0, 8000, Modifier::Immediate), 1_000_000);
    let out = g.tick(1_000_000, &Sensors::default());
    // dt clamped to max_tick_ms (250) * slew (20) = 5000.
    assert_eq!(out.vibe[0], f(5000));
    // Time going backwards is a zero-length tick.
    assert_eq!(g.tick(5, &Sensors::default()).vibe[0], f(5000));
}

#[test]
fn limits_errors_in_order() {
    let mut l = Limits::default();
    l.linear_slew_per_ms = 0;
    assert_eq!(l.validated(), Err(LimitsError::ZeroSlew));
    let mut l = Limits::default();
    l.link_timeout_ms = 0;
    assert_eq!(l.validated(), Err(LimitsError::ZeroLinkTimeout));
    let mut l = Limits::default();
    l.max_tick_ms = 0;
    assert_eq!(l.validated(), Err(LimitsError::ZeroMaxTick));
    // The first violated invariant is the one reported.
    let mut l = Limits::default();
    l.max_tick_ms = 0;
    l.vibe_slew_per_ms = 0;
    assert_eq!(l.validated(), Err(LimitsError::ZeroSlew));
}

#[test]
fn default_limits_values() {
    let l = Limits::default();
    assert_eq!(l.max_vibe, f(8000));
    assert_eq!(l.vibe_slew_per_ms, 20);
    assert_eq!(l.linear_slew_per_ms, 50);
    assert_eq!(l.link_timeout_ms, 2000);
    assert_eq!(l.heat.limit, 7_000 * 600_000);
    assert_eq!(l.heat.cool_per_ms, 3000);
    assert_eq!(l.heat.derate, f(4000));
    assert_eq!(l.max_temperature_dc, 420);
    assert_eq!(l.max_current_ma, 1500);
    assert_eq!(l.min_supply_mv, 4000);
    assert_eq!(l.max_tick_ms, 250);
    assert_eq!(*Governor::new(l).limits(), l);
}

#[test]
fn violation_order_and_healthy_readings() {
    let l = Limits::default();
    assert_eq!(Sensors::default().violation(&l), None);
    let at_limits = Sensors {
        temperature_dc: Some(420),
        motor_current_ma: Some(1500),
        supply_mv: Some(4000),
    };
    assert_eq!(at_limits.violation(&l), None);
    let all_bad = Sensors {
        temperature_dc: Some(421),
        motor_current_ma: Some(1501),
        supply_mv: Some(3999),
    };
    assert_eq!(all_bad.violation(&l), Some(Fault::OverTemperature));
    let two_bad = Sensors { temperature_dc: None, ..all_bad };
    assert_eq!(two_bad.violation(&l), Some(Fault::OverCurrent));
}

#[test]
fn outputs_off_is_silent() {
    let off = Outputs::off();
    assert!(off.is_silent());
    assert!(!off.driver_enable);
    assert_eq!(off.vibe, [Fraction::zero(); VIBE_CHANNELS]);
    assert_eq!(off.linear, [Fraction::zero(); LINEAR_CHANNELS]);
    assert_eq!(Outputs::default(), off);
    let mut some = off;
    some.linear[0] = f(1);
    assert!(!some.is_silent());
}

#[test]
fn queries_reply_without_moving() {
    let mut g = Governor::new(Limits::default());
    assert_eq!(
        g.handle(&Command::Device(DeviceCommand::ListAxes), 0),
        Disposition::Reply(DeviceCommand::ListAxes)
    );
    assert_eq!(
        g.handle(&Command::Device(DeviceCommand::Version), 0),
        Disposition::Reply(DeviceCommand::Version)
    );
    assert_eq!(g.state(), State::Idle);
    assert_eq!(AXIS_LIST, "V0 Vibe0\nV1 Vibe1\nL0 Stroke");
}

#[test]
fn vibration_targets_are_clamped_to_the_ceiling() {
    let mut g = Governor::new(Limits::default());
    g.handle(&vibe(1, 9999, Modifier::Immediate), 0);
    let out = run(&mut g, 0, 1000, 5);
    assert_eq!(out.vibe[1], f(8000));
    assert_eq!(out.vibe[0], Fraction::zero());
}

#[test]
fn link_down_when_faulted_keeps_the_fault() {
    let mut g = Governor::new(Limits::default());
    g.report(Fault::EmergencyStop);
    g.link_down();
    assert_eq!(g.state(), State::Faulted(Fault::EmergencyStop));
    // Clearing a governor that is not faulted changes nothing.
    let mut h = Governor::new(Limits::default());
    assert_eq!(h.clear_fault(&Sensors::default()), State::Idle);
    h.handle(&vibe(0, 100, Modifier::Immediate), 0);
    assert_eq!(h.clear_fault(&Sensors::default()), State::Active);
}

#[test]
fn slew_bound_holds_over_a_long_run_with_default_limits() {
    // Derating and recovery included: the cooling rate is below the derate
    // ceiling, so no channel ever rises faster than the slew limit.
    let limits = Limits::default();
    let mut g = Governor::new(limits);
    let mut prev = g.outputs();
    let mut now = 0u64;
    let mut step = 0u32;
    while now < 200_000 {
        if step % 97 == 0 {
            let raw = ((step * 7919) % 10_000) as u16;
            let modifier = match step % 3 {
                0 => Modifier::Immediate,
                1 => Modifier::Interval { millis: step % 500 },
                _ => Modifier::Speed { per_second: step * 13 },
            };
            g.handle(&vibe((step % 2) as u8, raw, modifier), now);
        }
        let dt = u64::from(step % 300);
        now += dt;
        let out = g.tick(now, &Sensors::default());
        let max_rise = u32::from(limits.vibe_slew_per_ms) * (dt as u32).min(limits.max_tick_ms);
        for i in 0..VIBE_CHANNELS {
            assert!(out.vibe[i] <= limits.max_vibe);
            assert!(u32::from(out.vibe[i].raw()) <= u32::from(prev.vibe[i].raw()) + max_rise);
        }
        assert_eq!(out.driver_enable, !out.is_silent());
        prev = out;
        step += 1;
    }
}

#[test]
fn every_valid_token_restarts_the_link_watchdog() {
    let mut g = Governor::new(Limits::default());
    g.handle(&vibe(0, 5000, Modifier::Immediate), 0);
    g.tick(0, &Sensors::default());
    // A move for an axis this device does not have still counts.
    let rot = Command::Move {
        axis: Axis { kind: AxisKind::Rotate, index: 0 },
        target: f(500),
        modifier: Modifier::Immediate,
    };
    assert_eq!(g.handle(&rot, 1900), Disposition::IgnoredUnsupportedAxis);
    run(&mut g, 250, 3800, 250);
    assert_eq!(g.state(), State::Active);
    // So does an identify query.
    g.handle(&Command::Device(DeviceCommand::Identify), 3800);
    run(&mut g, 4050, 5800, 250);
    assert_eq!(g.state(), State::Active);
    run(&mut g, 6050, 6050, 1);
    assert_eq!(g.state(), State::Coasting(CoastReason::LinkTimeout));
}

#[test]
fn leaving_derating_ramps_at_the_slew_rate() {
    // The channel derates at full power; the host then asks for 40 %, which
    // is below the cooling rate, so the heat drains and derating ends while
    // the setpoint is far above the derate ceiling.
    let mut limits = Limits::default();
    limits.heat = HeatBudget { limit: 1_000_000, cool_per_ms: 5_000, derate: f(1000) };
    let mut g = Governor::new(limits);
    let mut prev = g.outputs();
    let mut was_derated = false;
    let mut recovered_at = None;
    for t in 0..3000u64 {
        let target = if was_derated { 4000 } else { 8000 };
        g.handle(&vibe(0, target, Modifier::Immediate), t);
        let out = g.tick(t, &Sensors::default());
        let dt = if t == 0 { 0 } else { 1 };
        assert!(u32::from(out.vibe[0].raw()) <= u32::from(prev.vibe[0].raw()) + 20 * dt);
        if g.is_derated(0) {
            was_derated = true;
            assert!(out.vibe[0] <= f(1000));
        } else if was_derated && recovered_at.is_none() {
            recovered_at = Some(t);
        }
        prev = out;
    }
    let recovered_at = recovered_at.unwrap();
    assert!(recovered_at < 2800);
    // Back at the setpoint, after climbing from the derate ceiling.
    assert_eq!(prev.vibe[0], f(4000));
}
