use teledildo_core::control::{
    button_step, chunk_commands, control_tick, handle_event, led_on, outputs_within_limits,
    pwm_compares, readings_from_counts, sensors_from_counts, Actuation, ButtonInput, ButtonPhase, Event,
};
use teledildo_core::line::LineBuffer;
use teledildo_core::tcode::ParseError;
use teledildo_core::governor::{
    CoastReason, Fault, Governor, Limits, Outputs, Sensors, State, AXIS_LIST,
};
use teledildo_core::tcode::{Axis, AxisKind, Command, DeviceCommand, Modifier};
use teledildo_core::value::Fraction;

fn f(raw: u16) -> Fraction {
    Fraction::new(raw).unwrap()
}

fn vibe(index: u8, raw: u16) -> Command {
    Command::Move {
        axis: Axis { kind: AxisKind::Vibrate, index },
        target: f(raw),
        modifier: Modifier::Immediate,
    }
}

#[test]
fn events_answer_queries() {
    let mut g = Governor::new(Limits::default());
    let fw = "teledildo-rp2040 v0.1.0";
    assert_eq!(
        handle_event(&mut g, Event::Command(Command::Device(DeviceCommand::Identify)), 0, Some(Sensors::default()), fw),
        Some("TCode v0.3")
    );
    assert_eq!(
        handle_event(&mut g, Event::Command(Command::Device(DeviceCommand::Version)), 0, Some(Sensors::default()), fw),
        Some(fw)
    );
    assert_eq!(
        handle_event(&mut g, Event::Command(Command::Device(DeviceCommand::ListAxes)), 0, Some(Sensors::default()), fw),
        Some(AXIS_LIST)
    );
    assert_eq!(handle_event(&mut g, Event::Command(vibe(0, 100)), 0, Some(Sensors::default()), fw), None);
    assert_eq!(g.state(), State::Active);
    assert_eq!(handle_event(&mut g, Event::LinkUp, 1, Some(Sensors::default()), fw), None);
    assert_eq!(g.state(), State::Active);
}

#[test]
fn events_drive_the_safety_states() {
    let mut g = Governor::new(Limits::default());
    handle_event(&mut g, Event::Command(vibe(0, 5000)), 0, Some(Sensors::default()), "fw");
    handle_event(&mut g, Event::LinkDown, 1, Some(Sensors::default()), "fw");
    assert_eq!(g.state(), State::Coasting(CoastReason::LinkDown));
    handle_event(&mut g, Event::ButtonPressed, 2, Some(Sensors::default()), "fw");
    assert_eq!(g.state(), State::Faulted(Fault::EmergencyStop));
    assert_eq!(g.outputs(), Outputs::off());
    // Queries are ignored while faulted: no reply.
    assert_eq!(
        handle_event(&mut g, Event::Command(Command::Device(DeviceCommand::Identify)), 3, Some(Sensors::default()), "fw"),
        None
    );
    handle_event(&mut g, Event::ButtonHeld, 4, Some(Sensors::default()), "fw");
    assert_eq!(g.state(), State::Idle);
}

#[test]
fn button_press_keeps_an_earlier_fault() {
    let mut g = Governor::new(Limits::default());
    g.report(Fault::Hardware);
    handle_event(&mut g, Event::ButtonPressed, 0, Some(Sensors::default()), "fw");
    assert_eq!(g.state(), State::Faulted(Fault::Hardware));
}

#[test]
fn counts_become_readings() {
    assert_eq!(
        sensors_from_counts(2048, 4095, 2048),
        Some(Sensors { temperature_dc: Some(250), motor_current_ma: Some(1650), supply_mv: Some(4951) })
    );
    // Probe outside its table.
    assert_eq!(sensors_from_counts(100, 0, 2048), None);
    // Supply beyond the u16 range.
    assert_eq!(sensors_from_counts(2048, 0, u16::MAX), None);
}

#[test]
fn recheck_accepts_governor_outputs_and_rejects_bad_ones() {
    let limits = Limits::default();
    let mut g = Governor::new(limits);
    g.handle(&vibe(0, 9999), 0);
    for t in 0..1000 {
        let out = g.tick(t, &Sensors::default());
        assert!(outputs_within_limits(&out, &limits));
    }
    let mut bad = Outputs::off();
    bad.vibe[1] = f(8001);
    bad.driver_enable = true;
    assert!(!outputs_within_limits(&bad, &limits));
    let mut not_enabled = Outputs::off();
    not_enabled.vibe[0] = f(10);
    assert!(!outputs_within_limits(&not_enabled, &limits));
    assert!(outputs_within_limits(&Outputs::off(), &limits));
}

#[test]
fn pwm_compare_values() {
    let mut out = Outputs::off();
    assert_eq!(pwm_compares(&out), (0, 0, 1250));
    out.vibe[0] = f(5000);
    out.vibe[1] = f(9999);
    out.linear[0] = f(9999);
    assert_eq!(pwm_compares(&out), (2500, 4999, 2500));
    out.linear[0] = f(5000);
    assert_eq!(pwm_compares(&out).2, 1250 + 625);
}

#[test]
fn led_patterns() {
    assert!(led_on(State::Active, 7));
    assert!(!led_on(State::Idle, 7));
    assert!(led_on(State::Coasting(CoastReason::LinkTimeout), 99));
    assert!(!led_on(State::Coasting(CoastReason::LinkTimeout), 100));
    assert!(led_on(State::Coasting(CoastReason::StopCommand), 200));
    assert!(led_on(State::Faulted(Fault::Hardware), 19));
    assert!(!led_on(State::Faulted(Fault::Hardware), 20));
    assert!(led_on(State::Faulted(Fault::Hardware), 40));
}

#[test]
fn chunks_become_commands_line_by_line() {
    let mut lines = LineBuffer::<16>::new();
    assert_eq!(chunk_commands(&mut lines, b"V050"), Vec::new());
    assert_eq!(
        chunk_commands(&mut lines, b"0 x\nD0\nL1"),
        vec![
            Ok(vibe(0, 5000)),
            Err(ParseError::UnknownPrefix(b'x')),
            Ok(Command::Device(DeviceCommand::Identify)),
        ]
    );
    assert_eq!(lines.line(), b"L1");
    // An over-long line yields nothing and is counted.
    assert_eq!(chunk_commands(&mut lines, b"23456789012345678\nD2\n").len(), 1);
    assert_eq!(lines.dropped_lines(), 1);
}

#[test]
fn button_press_hold_and_release() {
    let (p, e) = button_step(ButtonPhase::Released, ButtonInput::Down);
    assert_eq!((p, e), (ButtonPhase::Debouncing, None));
    // A bounce: the line is high again after the debounce interval.
    assert_eq!(
        button_step(ButtonPhase::Debouncing, ButtonInput::Debounced { high: true }),
        (ButtonPhase::Released, None)
    );
    assert_eq!(
        button_step(ButtonPhase::Debouncing, ButtonInput::Debounced { high: false }),
        (ButtonPhase::Pressed, Some(Event::ButtonPressed))
    );
    assert_eq!(button_step(ButtonPhase::Pressed, ButtonInput::Up), (ButtonPhase::Released, None));
    assert_eq!(
        button_step(ButtonPhase::Pressed, ButtonInput::HoldElapsed),
        (ButtonPhase::Held, Some(Event::ButtonHeld))
    );
    assert_eq!(button_step(ButtonPhase::Held, ButtonInput::Up), (ButtonPhase::Released, None));
    // Anything else is ignored.
    assert_eq!(button_step(ButtonPhase::Held, ButtonInput::HoldElapsed), (ButtonPhase::Held, None));
    assert_eq!(button_step(ButtonPhase::Released, ButtonInput::Up), (ButtonPhase::Released, None));
}

#[test]
fn hold_is_reported_only_after_a_press() {
    let inputs = [
        ButtonInput::HoldElapsed,
        ButtonInput::Down,
        ButtonInput::HoldElapsed,
        ButtonInput::Debounced { high: false },
        ButtonInput::HoldElapsed,
        ButtonInput::HoldElapsed,
        ButtonInput::Up,
        ButtonInput::Down,
        ButtonInput::Debounced { high: false },
        ButtonInput::Up,
    ];
    let mut phase = ButtonPhase::Released;
    let mut events = Vec::new();
    for input in inputs {
        let (next, e) = button_step(phase, input);
        events.extend(e);
        phase = next;
    }
    assert_eq!(events, vec![Event::ButtonPressed, Event::ButtonHeld, Event::ButtonPressed]);
}

#[test]
fn control_tick_drives_the_hardware() {
    let mut g = Governor::new(Limits::default());
    g.handle(&vibe(0, 5000), 0);
    let healthy = Some((2048u16, 100u16, 2048u16));
    assert_eq!(
        control_tick(&mut g, 0, readings_from_counts(healthy), 1),
        Some(Actuation { motor_a: 0, motor_b: 0, servo: 1250, driver_enable: false, led: true })
    );
    // 10 ms at 20 raw units per ms: 200 raw units -> 100 of 4999.
    assert_eq!(
        control_tick(&mut g, 10, readings_from_counts(healthy), 2),
        Some(Actuation { motor_a: 100, motor_b: 0, servo: 1250, driver_enable: true, led: true })
    );
    // A probe outside its table latches a hardware fault at once.
    let act = control_tick(&mut g, 20, readings_from_counts(Some((0, 100, 2048))), 3).unwrap();
    assert_eq!(g.state(), State::Faulted(Fault::Hardware));
    assert_eq!(act, Actuation { motor_a: 0, motor_b: 0, servo: 1250, driver_enable: false, led: true });
    // No counts at all keeps the fault; the LED blinks.
    let act = control_tick(&mut g, 30, None, 25).unwrap();
    assert!(!act.led);
    assert_eq!(g.state(), State::Faulted(Fault::Hardware));
}

#[test]
fn control_tick_faults_on_an_overheated_probe() {
    let mut g = Governor::new(Limits::default());
    g.handle(&vibe(1, 9000), 0);
    control_tick(&mut g, 0, readings_from_counts(Some((2048, 0, 2048))), 0);
    // 3790 counts is 95.0 C, above the 42.0 C limit.
    let act = control_tick(&mut g, 5, readings_from_counts(Some((3790, 0, 2048))), 1).unwrap();
    assert_eq!(g.state(), State::Faulted(Fault::OverTemperature));
    assert!(!act.driver_enable);
    assert_eq!((act.motor_a, act.motor_b), (0, 0));
}

#[test]
fn a_hold_clears_a_fault_only_on_healthy_readings() {
    let mut g = Governor::new(Limits::default());
    g.report(Fault::OverTemperature);
    let hot = Sensors { temperature_dc: Some(500), ..Sensors::default() };
    handle_event(&mut g, Event::ButtonHeld, 0, Some(hot), "fw");
    assert_eq!(g.state(), State::Faulted(Fault::OverTemperature));
    // No readings at all: nothing to vouch for the sensors.
    handle_event(&mut g, Event::ButtonHeld, 1, None, "fw");
    assert_eq!(g.state(), State::Faulted(Fault::OverTemperature));
    let healthy = readings_from_counts(Some((2048, 100, 2048)));
    assert!(healthy.is_some());
    handle_event(&mut g, Event::ButtonHeld, 2, healthy, "fw");
    assert_eq!(g.state(), State::Idle);
    assert_eq!(readings_from_counts(None), None);
}

#[test]
fn push_all_hands_every_completed_line_over() {
    let mut lb = LineBuffer::<4>::new();
    let mut lines: Vec<Vec<u8>> = Vec::new();
    lb.push_all(b"toolong\nok\n\nabcd\nab", |l| lines.push(l.to_vec()));
    assert_eq!(lines, vec![b"ok".to_vec(), Vec::new(), b"abcd".to_vec()]);
    assert_eq!(lb.dropped_lines(), 1);
}
