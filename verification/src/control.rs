//! The firmware's control-loop decisions, apart from the hardware they
//! drive: which governor operation an event becomes and what is answered,
//! how ADC counts become sensor readings, the independent re-check of the
//! outputs before they reach the driver, the PWM compare values, and the
//! status LED pattern.

use crate::board::{
    adc_units, current_to_ma, ntc_to_dc, spec_ntc_table, supply_to_mv, CURRENT_FULL_SCALE_MA,
    MOTOR_PWM_TOP, SERVO_PULSE_MIN, SERVO_PULSE_SPAN, SUPPLY_FULL_SCALE_MV,
};
use crate::governor::{
    lemma_tick_laws, spec_clear_fault, spec_handle, spec_inv, spec_link_down, spec_report,
    spec_silent, spec_tick, Disposition, Fault, Governor, GovernorModel, Limits, Outputs,
    OutputsModel, Sensors, State, AXIS_LIST, VIBE_CHANNELS,
};
use crate::line::{spec_lines, spec_push, spec_push_all, LineBuffer, Push};
use crate::lookup::spec_interpolate;
use crate::tcode::{parse_line, spec_parse_all, Command, DeviceCommand, ParseError};
use vstd::prelude::*;

verus! {

/// Things that can happen to the control loop.
#[derive(Clone, Copy, Debug, PartialEq, Eq, Structural)]
pub enum Event {
    /// A parsed TCode command.
    Command(Command),
    /// Host opened the port.
    LinkUp,
    /// Host closed the port / USB disconnected.
    LinkDown,
    /// E-stop button pressed.
    ButtonPressed,
    /// E-stop button held long enough to request a fault clear.
    ButtonHeld,
}

/// No sensor reading: what a tick runs with when the probes could not be
/// read (a hardware fault is latched first).
pub open spec fn spec_no_sensors() -> Sensors {
    Sensors { temperature_dc: None, motor_current_ma: None, supply_mv: None }
}

/// The governor after an event at `now`, `latest` being the most recent
/// sensor readings (`None` if the probes could not be read).
pub open spec fn spec_event(g: GovernorModel, ev: Event, now: u64, latest: Option<Sensors>) -> GovernorModel {
    match ev {
        Event::Command(cmd) => spec_handle(g, cmd, now).0,
        Event::LinkUp => g,
        Event::LinkDown => spec_link_down(g),
        Event::ButtonPressed => if g.state is Faulted {
            g
        } else {
            spec_report(g, Fault::EmergencyStop)
        },
        Event::ButtonHeld => match latest {
            Some(s) => spec_clear_fault(g, s),
            None => g,
        },
    }
}

/// Apply an event to the governor. Returns the text to send back to the
/// host, if the event was a query the governor accepted: the protocol
/// version for `D0`, `firmware` for `D1`, and [`AXIS_LIST`] for `D2`.
///
/// A long button hold clears a latched fault only if `latest`, the most
/// recent sensor readings, are within the limits; without readings it
/// clears nothing.
pub fn handle_event(
    governor: &mut Governor,
    ev: Event,
    now_ms: u64,
    latest: Option<Sensors>,
    firmware: &'static str,
) -> (r: Option<&'static str>)
    requires
        old(governor).inv(),
    ensures
        final(governor).inv(),
        final(governor)@ == spec_event(old(governor)@, ev, now_ms, latest),
        match ev {
            Event::Command(cmd) => match spec_handle(old(governor)@, cmd, now_ms).1 {
                Disposition::Reply(DeviceCommand::Identify) => r matches Some(text) && text@
                    == "TCode v0.3"@,
                Disposition::Reply(DeviceCommand::Version) => r == Some(firmware),
                Disposition::Reply(DeviceCommand::ListAxes) => r == Some(AXIS_LIST),
                _ => r is None,
            },
            _ => r is None,
        },
{
    match ev {
        Event::Command(cmd) => match governor.handle(&cmd, now_ms) {
            Disposition::Reply(query) => match query {
                DeviceCommand::ListAxes => Some(AXIS_LIST),
                other => other.reply(firmware),
            },
            _ => None,
        },
        Event::LinkUp => None,
        Event::LinkDown => {
            governor.link_down();
            None
        },
        Event::ButtonPressed => {
            if !matches!(governor.state(), State::Faulted(_)) {
                governor.report(Fault::EmergencyStop);
            }
            None
        },
        Event::ButtonHeld => {
            if let Some(s) = latest {
                governor.clear_fault(&s);
            }
            None
        },
    }
}

/// The tokens of `lines`, each line parsed in turn, in order.
pub open spec fn spec_parse_lines(lines: Seq<Seq<u8>>) -> Seq<Result<Command, ParseError>>
    decreases lines.len(),
{
    if lines.len() == 0 {
        Seq::empty()
    } else {
        spec_parse_all(lines[0]) + spec_parse_lines(lines.drop_first())
    }
}

/// Feed a chunk received from the host into the line assembler and return
/// the parsed tokens of every line it completes, in order.
pub fn chunk_commands<const N: usize>(lines: &mut LineBuffer<N>, chunk: &[u8]) -> (r: Vec<
    Result<Command, ParseError>,
>)
    requires
        old(lines).wf(),
    ensures
        final(lines).wf(),
        final(lines)@ == spec_push_all(old(lines)@, chunk@, N as nat),
        r@ == spec_parse_lines(spec_lines(old(lines)@, chunk@, N as nat)),
{
    let mut out: Vec<Result<Command, ParseError>> = Vec::new();
    let mut i: usize = 0;
    assert(chunk@.skip(0) =~= chunk@);
    assert(out@ + spec_parse_lines(spec_lines(lines@, chunk@, N as nat)) =~= spec_parse_lines(
        spec_lines(lines@, chunk@, N as nat),
    ));
    while i < chunk.len()
        invariant
            lines.wf(),
            0 <= i <= chunk@.len(),
            spec_push_all(old(lines)@, chunk@, N as nat) == spec_push_all(
                lines@,
                chunk@.skip(i as int),
                N as nat,
            ),
            spec_parse_lines(spec_lines(old(lines)@, chunk@, N as nat)) == out@ + spec_parse_lines(
                spec_lines(lines@, chunk@.skip(i as int), N as nat),
            ),
        decreases chunk@.len() - i,
    {
        let ghost before = lines@;
        let ghost rest = chunk@.skip(i as int);
        assert(rest.drop_first() =~= chunk@.skip(i + 1));
        assert(rest[0] == chunk@[i as int]);
        let ghost later = spec_lines(spec_push(before, rest[0], N as nat).0, rest.drop_first(), N as nat);
        if lines.push(chunk[i]) == Push::Complete {
            let mut parsed = parse_line(lines.line()).collect();
            let ghost done = out@;
            out.append(&mut parsed);
            proof {
                let ls = spec_lines(before, rest, N as nat);
                assert(ls == seq![lines@.line] + later);
                assert(ls.drop_first() =~= later);
                assert(spec_parse_lines(ls) == spec_parse_all(lines@.line) + spec_parse_lines(later));
                assert(done + spec_parse_lines(ls) =~= out@ + spec_parse_lines(later));
            }
        } else {
            assert(spec_lines(before, rest, N as nat) == later);
        }
        i = i + 1;
    }
    out
}

/// The readings for raw ADC counts: the thermistor through its table, the
/// current and supply scaled to their full-scale values; `None` when the
/// thermistor reads outside its table or the supply value does not fit.
pub open spec fn spec_sensors_from_counts(ntc_count: u16, current_count: u16, supply_count: u16) -> Option<
    Sensors,
> {
    match (
        spec_interpolate(spec_ntc_table(), ntc_count),
        adc_units(supply_count, SUPPLY_FULL_SCALE_MV) <= u16::MAX,
    ) {
        (Some(t), true) => Some(
            Sensors {
                temperature_dc: Some(t),
                motor_current_ma: Some(adc_units(current_count, CURRENT_FULL_SCALE_MA) as u16),
                supply_mv: Some(adc_units(supply_count, SUPPLY_FULL_SCALE_MV) as u16),
            },
        ),
        _ => None,
    }
}

/// Raw ADC counts to sensor readings; `None` when a probe reads outside its
/// calibration (which the firmware reports as a hardware fault).
pub fn sensors_from_counts(ntc_count: u16, current_count: u16, supply_count: u16) -> (r: Option<
    Sensors,
>)
    ensures
        r == spec_sensors_from_counts(ntc_count, current_count, supply_count),
{
    let t = match ntc_to_dc(ntc_count) {
        Some(t) => t,
        None => {
            return None;
        },
    };
    let i = match current_to_ma(current_count) {
        Some(i) => i,
        None => {
            return None;
        },
    };
    let v = match supply_to_mv(supply_count) {
        Some(v) => v,
        None => {
            return None;
        },
    };
    Some(Sensors { temperature_dc: Some(t), motor_current_ma: Some(i), supply_mv: Some(v) })
}

/// What the firmware re-checks before writing outputs: every vibration
/// output within the ceiling, and the driver enabled whenever an output is
/// non-zero.
pub open spec fn spec_within_limits(out: OutputsModel, limits: Limits) -> bool {
    &&& forall|i: int| 0 <= i < out.vibe.len() ==> #[trigger] out.vibe[i] <= limits.max_vibe@
    &&& (out.driver_enable || spec_silent(out))
}

/// The firmware's independent re-check of a tick's outputs.
pub fn outputs_within_limits(out: &Outputs, limits: &Limits) -> (r: bool)
    ensures
        r == spec_within_limits(out@, *limits),
{
    let max = limits.max_vibe.raw();
    let ok = out.vibe[0].raw() <= max && out.vibe[1].raw() <= max;
    let r = ok && (out.driver_enable || out.is_silent());
    assert(out@.vibe.len() == 2 && out@.vibe[0] == out.vibe[0]@ && out@.vibe[1]
        == out.vibe[1]@);
    r
}

/// Every tick's outputs pass the firmware's re-check, so the firmware never
/// halts on a governor output.
pub proof fn lemma_tick_passes_recheck(g: GovernorModel, now: u64, s: Sensors)
    requires
        spec_inv(g),
    ensures
        spec_within_limits(spec_tick(g, now, s).1, g.limits),
{
    lemma_tick_laws(g, now, s);
    crate::governor::lemma_tick_inv(g, now, s);
}

/// PWM compare values for the two motors and the servo.
pub fn pwm_compares(out: &Outputs) -> (r: (u16, u16, u16))
    ensures
        r.0 as int == out@.vibe[0] as int * (MOTOR_PWM_TOP as int + 1) / 10_000,
        r.1 as int == out@.vibe[1] as int * (MOTOR_PWM_TOP as int + 1) / 10_000,
        r.2 as int == SERVO_PULSE_MIN as int + out@.linear[0] as int * (SERVO_PULSE_SPAN as int + 1)
            / 10_000,
{
    let a = out.vibe[0].scale_to(MOTOR_PWM_TOP);
    let b = out.vibe[1].scale_to(MOTOR_PWM_TOP);
    let stroke = out.linear[0].scale_to(SERVO_PULSE_SPAN);
    (a, b, SERVO_PULSE_MIN + stroke)
}

/// Whether the status LED is lit in `state` at loop iteration `blink`.
pub open spec fn spec_led_on(state: State, blink: u32) -> bool {
    match state {
        State::Active => true,
        State::Idle => false,
        State::Coasting(_) => blink % 200 < 100,
        State::Faulted(_) => blink % 40 < 20,
    }
}

/// Status LED: solid when active, off when idle, slow blink (one second on,
/// one off, at 200 loop iterations per second) while coasting, fast blink
/// when faulted.
pub fn led_on(state: State, blink: u32) -> (r: bool)
    ensures
        r == spec_led_on(state, blink),
{
    match state {
        State::Active => true,
        State::Idle => false,
        State::Coasting(_) => blink % 200 < 100,
        State::Faulted(_) => blink % 40 < 20,
    }
}

/// Where the e-stop button handler is in its cycle.
#[derive(Clone, Copy, Debug, PartialEq, Eq, Structural)]
pub enum ButtonPhase {
    /// Waiting for the button to go down.
    Released,
    /// The line fell; waiting out the debounce interval.
    Debouncing,
    /// A press was reported; waiting for the release or the clear-hold time.
    Pressed,
    /// A hold was reported; waiting for the release.
    Held,
}

/// What the button handler observed while waiting.
#[derive(Clone, Copy, Debug, PartialEq, Eq, Structural)]
pub enum ButtonInput {
    /// The line fell (the button went down).
    Down,
    /// The debounce interval ended; `high` if the line is high again.
    Debounced { high: bool },
    /// The line rose (the button was let go).
    Up,
    /// The button stayed down for the clear-hold time.
    HoldElapsed,
}

/// The button handler's next phase, and the event it reports, if any.
pub open spec fn spec_button_step(phase: ButtonPhase, input: ButtonInput) -> (ButtonPhase, Option<
    Event,
>) {
    match (phase, input) {
        (ButtonPhase::Released, ButtonInput::Down) => (ButtonPhase::Debouncing, None),
        (ButtonPhase::Debouncing, ButtonInput::Debounced { high }) => if high {
            (ButtonPhase::Released, None)
        } else {
            (ButtonPhase::Pressed, Some(Event::ButtonPressed))
        },
        (ButtonPhase::Pressed, ButtonInput::Up) => (ButtonPhase::Released, None),
        (ButtonPhase::Pressed, ButtonInput::HoldElapsed) => (
            ButtonPhase::Held,
            Some(Event::ButtonHeld),
        ),
        (ButtonPhase::Held, ButtonInput::Up) => (ButtonPhase::Released, None),
        _ => (phase, None),
    }
}

/// The e-stop button's decisions: a debounced press reports
/// [`Event::ButtonPressed`]; keeping it down for the clear-hold time then
/// reports [`Event::ButtonHeld`]; anything unexpected in a phase is ignored.
pub fn button_step(phase: ButtonPhase, input: ButtonInput) -> (r: (ButtonPhase, Option<Event>))
    ensures
        r == spec_button_step(phase, input),
{
    match (phase, input) {
        (ButtonPhase::Released, ButtonInput::Down) => (ButtonPhase::Debouncing, None),
        (ButtonPhase::Debouncing, ButtonInput::Debounced { high }) => {
            if high {
                (ButtonPhase::Released, None)
            } else {
                (ButtonPhase::Pressed, Some(Event::ButtonPressed))
            }
        },
        (ButtonPhase::Pressed, ButtonInput::Up) => (ButtonPhase::Released, None),
        (ButtonPhase::Pressed, ButtonInput::HoldElapsed) => (
            ButtonPhase::Held,
            Some(Event::ButtonHeld),
        ),
        (ButtonPhase::Held, ButtonInput::Up) => (ButtonPhase::Released, None),
        _ => (phase, None),
    }
}

/// The events the button handler reports over a sequence of inputs.
pub open spec fn spec_button_events(phase: ButtonPhase, inputs: Seq<ButtonInput>) -> Seq<Event>
    decreases inputs.len(),
{
    if inputs.len() == 0 {
        Seq::empty()
    } else {
        let (next, ev) = spec_button_step(phase, inputs[0]);
        let rest = spec_button_events(next, inputs.drop_first());
        match ev {
            Some(e) => seq![e] + rest,
            None => rest,
        }
    }
}

proof fn lemma_button_events_from(phase: ButtonPhase, prev: Option<Event>, inputs: Seq<ButtonInput>)
    requires
        phase == ButtonPhase::Pressed ==> prev == Some(Event::ButtonPressed),
    ensures
        forall|k: int|
            0 <= k < spec_button_events(phase, inputs).len() && #[trigger] spec_button_events(
                phase,
                inputs,
            )[k] == Event::ButtonHeld ==> if k == 0 {
                prev == Some(Event::ButtonPressed)
            } else {
                spec_button_events(phase, inputs)[k - 1] == Event::ButtonPressed
            },
    decreases inputs.len(),
{
    if inputs.len() > 0 {
        let (next, ev) = spec_button_step(phase, inputs[0]);
        let rest = inputs.drop_first();
        let prev2 = match ev {
            Some(e) => Some(e),
            None => prev,
        };
        lemma_button_events_from(next, prev2, rest);
        let evs = spec_button_events(phase, inputs);
        let tail = spec_button_events(next, rest);
        if let Some(e) = ev {
            assert forall|k: int| 0 <= k < evs.len() && #[trigger] evs[k] == Event::ButtonHeld implies (
            if k == 0 {
                prev == Some(Event::ButtonPressed)
            } else {
                evs[k - 1] == Event::ButtonPressed
            }) by {
                if k > 0 {
                    assert(evs[k] == tail[k - 1]);
                    if k > 1 {
                        assert(evs[k - 1] == tail[k - 2]);
                    }
                }
            }
        }
    }
}

/// A hold is only ever reported for the press that is still down: starting
/// from a released button, every [`Event::ButtonHeld`] the handler reports
/// comes right after an [`Event::ButtonPressed`], whatever it observes.
pub proof fn lemma_hold_follows_press(inputs: Seq<ButtonInput>)
    ensures
        forall|k: int|
            0 <= k < spec_button_events(ButtonPhase::Released, inputs).len()
                && #[trigger] spec_button_events(ButtonPhase::Released, inputs)[k]
                == Event::ButtonHeld ==> k > 0 && spec_button_events(ButtonPhase::Released, inputs)[k
                - 1] == Event::ButtonPressed,
{
    lemma_button_events_from(ButtonPhase::Released, None, inputs);
}

/// What the control loop writes to the hardware for one period.
#[derive(Clone, Copy, Debug, PartialEq, Eq, Structural)]
pub struct Actuation {
    /// PWM compare value for vibration motor 0.
    pub motor_a: u16,
    /// PWM compare value for vibration motor 1.
    pub motor_b: u16,
    /// PWM compare value for the stroke servo.
    pub servo: u16,
    /// Level of the motor driver's enable line.
    pub driver_enable: bool,
    /// Level of the status LED.
    pub led: bool,
}

/// The readings for the ADC counts of a period, if the ADC could be read
/// and every probe is within its calibration.
pub open spec fn spec_readings(counts: Option<(u16, u16, u16)>) -> Option<Sensors> {
    match counts {
        Some((t, i, v)) => spec_sensors_from_counts(t, i, v),
        None => None,
    }
}

/// The readings for the ADC counts of a period; `None` when the ADC could
/// not be read or a probe reads outside its calibration.
pub fn readings_from_counts(counts: Option<(u16, u16, u16)>) -> (r: Option<Sensors>)
    ensures
        r == spec_readings(counts),
{
    match counts {
        Some((t, i, v)) => sensors_from_counts(t, i, v),
        None => None,
    }
}

/// The governor after one control period at `now`, and the outputs of its
/// tick, with the period's `readings` (if there are none, a hardware fault
/// is latched and the tick runs with no readings).
pub open spec fn spec_control_tick(g: GovernorModel, now: u64, readings: Option<Sensors>) -> (
    GovernorModel,
    OutputsModel,
) {
    match readings {
        Some(s) => spec_tick(g, now, s),
        None => spec_tick(spec_report(g, Fault::Hardware), now, spec_no_sensors()),
    }
}

/// One period of the control loop apart from its hardware: tick the
/// governor with the period's readings (latching a hardware fault if there
/// are none), re-check its outputs, and work out the PWM compare values, the
/// driver enable line and the status LED for loop iteration `blink`. The
/// re-check always passes (the firmware would halt if it did not).
pub fn control_tick(governor: &mut Governor, now_ms: u64, readings: Option<Sensors>, blink: u32) -> (r:
    Option<Actuation>)
    requires
        old(governor).inv(),
    ensures
        final(governor).inv(),
        final(governor)@ == spec_control_tick(old(governor)@, now_ms, readings).0,
        ({
            let out = spec_control_tick(old(governor)@, now_ms, readings).1;
            r == Some(
                Actuation {
                    motor_a: (out.vibe[0] as int * (MOTOR_PWM_TOP as int + 1) / 10_000) as u16,
                    motor_b: (out.vibe[1] as int * (MOTOR_PWM_TOP as int + 1) / 10_000) as u16,
                    servo: (SERVO_PULSE_MIN as int + out.linear[0] as int * (SERVO_PULSE_SPAN as int
                        + 1) / 10_000) as u16,
                    driver_enable: out.driver_enable,
                    led: spec_led_on(final(governor)@.state, blink),
                },
            )
        }),
{
    let sensors = match readings {
        Some(s) => s,
        None => {
            governor.report(Fault::Hardware);
            Sensors::default()
        },
    };
    let ghost before = governor@;
    let out = governor.tick(now_ms, &sensors);
    proof {
        lemma_tick_passes_recheck(before, now_ms, sensors);
    }
    if !outputs_within_limits(&out, governor.limits()) {
        return None;
    }
    let (motor_a, motor_b, servo) = pwm_compares(&out);
    let led = led_on(governor.state(), blink);
    Some(Actuation { motor_a, motor_b, servo, driver_enable: out.driver_enable, led })
}

} // verus!
