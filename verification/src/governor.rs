//! The safety envelope between the host and the actuators.
//!
//! The firmware feeds every parsed [`Command`] into [`Governor::handle`] and
//! calls [`Governor::tick`] at a fixed rate with the current time and sensor
//! readings. The [`Outputs`] returned by `tick` are the *only* values the
//! firmware is allowed to write to the motor driver.
//!
//! Guarantees (each stated in the contracts below and proved):
//!
//! 1. **Ceiling** — every vibration output is `<= limits.max_vibe`, whatever
//!    the host asks for.
//! 2. **Slew** — a vibration output never rises by more than
//!    `limits.vibe_slew_per_ms * dt` between consecutive ticks, also when a
//!    channel leaves thermal derating: the output then climbs back to the
//!    planner's level at the slew rate. (It may fall faster: stopping is
//!    always allowed.)
//! 3. **Link watchdog** — if no command arrives for `limits.link_timeout_ms`,
//!    or the transport reports the link down, vibration ramps to zero and the
//!    driver is disabled until the host speaks again.
//! 4. **Faults latch** — a sensor limit, e-stop, or reported hardware fault
//!    forces all outputs to zero and the driver off *immediately*, ignores
//!    every command, and stays that way until [`Governor::clear_fault`] is
//!    called with healthy sensor readings.
//! 5. **Thermal budget** — a leaky-bucket duty integrator derates sustained
//!    high intensity to `limits.heat.derate` so the motor and the surface in
//!    contact with skin cannot heat indefinitely.

use crate::motion::{
    lemma_step, min_int, sat_u32, spec_command, spec_rest, spec_step, AxisPlanner, PlannerModel,
};
use crate::tcode::{Axis, AxisKind, Command, DeviceCommand, Modifier};
use crate::value::Fraction;
use vstd::prelude::*;

verus! {

broadcast use {Fraction::lemma_from_raw_view, Fraction::lemma_view_from_raw};

/// Number of vibration channels this device drives.
pub const VIBE_CHANNELS: usize = 2;

/// Number of linear (stroke) channels this device drives.
pub const LINEAR_CHANNELS: usize = 1;

/// TCode axis list returned for `D2`, matching the channel constants above.
pub const AXIS_LIST: &'static str = "V0 Vibe0\nV1 Vibe1\nL0 Stroke";

/// Thermal duty budget. Heat accumulates as `intensity_raw * dt_ms` and
/// drains at `cool_per_ms` per millisecond; the equilibrium intensity is
/// therefore `cool_per_ms` raw units.
#[derive(Clone, Copy, Debug, PartialEq, Eq, Structural)]
pub struct HeatBudget {
    /// Accumulated heat at which derating starts.
    pub limit: u64,
    /// Heat drained per millisecond regardless of intensity.
    pub cool_per_ms: u64,
    /// Ceiling applied while derated. Derating ends at `limit / 2`.
    pub derate: Fraction,
}

/// All tunable ceilings. Check with [`Limits::validated`] so invalid
/// combinations are rejected at boot rather than discovered under load.
#[derive(Clone, Copy, Debug, PartialEq, Eq, Structural)]
pub struct Limits {
    /// Hard ceiling on any vibration channel.
    pub max_vibe: Fraction,
    /// Max rise per millisecond for vibration, in raw units (10000 = full).
    pub vibe_slew_per_ms: u16,
    /// Max change per millisecond for linear axes, in raw units.
    pub linear_slew_per_ms: u16,
    /// Silence from the host after which outputs coast to safe.
    pub link_timeout_ms: u32,
    /// Thermal duty budget.
    pub heat: HeatBudget,
    /// Fault above this temperature, in tenths of a degree Celsius.
    pub max_temperature_dc: i16,
    /// Fault above this motor current, in milliamps.
    pub max_current_ma: u16,
    /// Fault below this supply voltage, in millivolts.
    pub min_supply_mv: u16,
    /// Largest `dt` a single tick may integrate; longer gaps are clamped so a
    /// stalled scheduler cannot produce a huge jump.
    pub max_tick_ms: u32,
}

/// Why a [`Limits`] value was rejected.
#[derive(Clone, Copy, Debug, PartialEq, Eq, Structural)]
pub enum LimitsError {
    /// A slew rate of zero would freeze the axis forever.
    ZeroSlew,
    /// A zero link timeout would coast on every tick.
    ZeroLinkTimeout,
    /// `heat.derate` must not exceed `max_vibe`.
    DerateAboveCeiling,
    /// `max_tick_ms` must be at least 1.
    ZeroMaxTick,
}

/// Latched fault causes.
#[derive(Clone, Copy, Debug, PartialEq, Eq, Structural)]
pub enum Fault {
    /// Temperature sensor above `max_temperature_dc`.
    OverTemperature,
    /// Motor current above `max_current_ma`.
    OverCurrent,
    /// Supply below `min_supply_mv` (brown-out makes driver behaviour undefined).
    UnderVoltage,
    /// Local emergency-stop input.
    EmergencyStop,
    /// The firmware reported a hardware fault (driver nFAULT, watchdog reset, ...).
    Hardware,
}

/// Why outputs are coasting toward safe.
#[derive(Clone, Copy, Debug, PartialEq, Eq, Structural)]
pub enum CoastReason {
    /// No command within `link_timeout_ms`.
    LinkTimeout,
    /// Transport reported disconnection.
    LinkDown,
    /// Host sent `DSTOP`.
    StopCommand,
}

/// Governor state.
#[derive(Clone, Copy, Debug, PartialEq, Eq, Structural)]
pub enum State {
    /// Powered up, nothing commanded yet. Outputs zero, driver disabled.
    Idle,
    /// Following host commands.
    Active,
    /// Ramping to safe; resumes on the next move command.
    Coasting(CoastReason),
    /// Latched. Outputs zero, driver disabled, commands ignored.
    Faulted(Fault),
}

/// Latest sensor readings. `None` means "no sensor fitted"; a fitted sensor
/// that fails to read should be reported as a [`Fault::Hardware`] instead.
#[derive(Clone, Copy, Debug, PartialEq, Eq, Structural)]
pub struct Sensors {
    /// Surface/motor temperature in tenths of a degree Celsius.
    pub temperature_dc: Option<i16>,
    /// Motor current in milliamps.
    pub motor_current_ma: Option<u16>,
    /// Supply voltage in millivolts.
    pub supply_mv: Option<u16>,
}

/// Actuator setpoints for one control period.
#[derive(Clone, Copy, Debug, PartialEq, Eq)]
pub struct Outputs {
    /// Vibration intensities.
    pub vibe: [Fraction; VIBE_CHANNELS],
    /// Linear positions.
    pub linear: [Fraction; LINEAR_CHANNELS],
    /// Whether the motor driver's enable/sleep pin may be asserted. `false`
    /// whenever every output is zero, so an idle device is hard-off.
    pub driver_enable: bool,
}

/// What the governor did with a command.
#[derive(Clone, Copy, Debug, PartialEq, Eq, Structural)]
pub enum Disposition {
    /// Accepted (possibly clamped).
    Applied,
    /// A query the firmware should answer; see [`DeviceCommand::reply`] and
    /// [`AXIS_LIST`].
    Reply(DeviceCommand),
    /// Dropped because the governor is faulted.
    IgnoredFaulted,
    /// Dropped because the axis is not fitted on this device.
    IgnoredUnsupportedAxis,
}

// ---------------------------------------------------------------------------
// Abstract state.
// ---------------------------------------------------------------------------

/// The raw values of an [`Outputs`].
pub struct OutputsModel {
    pub vibe: Seq<u16>,
    pub linear: Seq<u16>,
    pub driver_enable: bool,
}

impl View for Outputs {
    type V = OutputsModel;

    open spec fn view(&self) -> OutputsModel {
        OutputsModel {
            vibe: self.vibe@.map_values(|f: Fraction| f@),
            linear: self.linear@.map_values(|f: Fraction| f@),
            driver_enable: self.driver_enable,
        }
    }
}

/// Every channel at zero.
pub open spec fn spec_silent(o: OutputsModel) -> bool {
    &&& forall|i: int| 0 <= i < o.vibe.len() ==> o.vibe[i] == 0
    &&& forall|j: int| 0 <= j < o.linear.len() ==> o.linear[j] == 0
}

/// Everything off: every channel at zero and the driver disabled.
pub open spec fn spec_off() -> OutputsModel {
    OutputsModel {
        vibe: Seq::new(VIBE_CHANNELS as nat, |i: int| 0u16),
        linear: Seq::new(LINEAR_CHANNELS as nat, |j: int| 0u16),
        driver_enable: false,
    }
}

/// The abstract state of a [`Governor`].
pub struct GovernorModel {
    pub limits: Limits,
    pub state: State,
    pub vibe: Seq<PlannerModel>,
    pub linear: Seq<PlannerModel>,
    pub heat: Seq<u64>,
    pub derated: Seq<bool>,
    pub last_command_ms: u64,
    pub last_tick_ms: Option<u64>,
    pub outputs: OutputsModel,
}

/// The limits shipped as defaults: a small ERM/LRA vibration motor in a
/// body-contact enclosure powered from 5 V USB.
pub open spec fn spec_default_limits() -> Limits {
    Limits {
        max_vibe: Fraction::from_raw(8_000),
        vibe_slew_per_ms: 20,
        linear_slew_per_ms: 50,
        link_timeout_ms: 2_000,
        heat: HeatBudget {
            limit: 4_200_000_000,
            cool_per_ms: 3_000,
            derate: Fraction::from_raw(4_000),
        },
        max_temperature_dc: 420,
        max_current_ma: 1_500,
        min_supply_mv: 4_000,
        max_tick_ms: 250,
    }
}

/// The first invariant that `l` violates, if any.
pub open spec fn spec_validated(l: Limits) -> Result<Limits, LimitsError> {
    if l.vibe_slew_per_ms == 0 || l.linear_slew_per_ms == 0 {
        Err(LimitsError::ZeroSlew)
    } else if l.link_timeout_ms == 0 {
        Err(LimitsError::ZeroLinkTimeout)
    } else if l.heat.derate@ > l.max_vibe@ {
        Err(LimitsError::DerateAboveCeiling)
    } else if l.max_tick_ms == 0 {
        Err(LimitsError::ZeroMaxTick)
    } else {
        Ok(l)
    }
}

/// The first limit a reading violates, if any: temperature, then current,
/// then supply.
pub open spec fn spec_violation(s: Sensors, l: Limits) -> Option<Fault> {
    if s.temperature_dc matches Some(t) && t > l.max_temperature_dc {
        Some(Fault::OverTemperature)
    } else if s.motor_current_ma matches Some(i) && i > l.max_current_ma {
        Some(Fault::OverCurrent)
    } else if s.supply_mv matches Some(v) && v < l.min_supply_mv {
        Some(Fault::UnderVoltage)
    } else {
        None
    }
}

/// `v` clamped to the `u64` range from above.
pub open spec fn sat_u64(v: int) -> int {
    if v > u64::MAX {
        u64::MAX as int
    } else {
        v
    }
}

/// The vibration output for a setpoint: the derate ceiling while derated,
/// then the hard ceiling.
pub open spec fn channel_output(level: u16, derated: bool, l: Limits) -> u16 {
    let lvl = if derated {
        min_int(level as int, l.heat.derate@ as int)
    } else {
        level as int
    };
    min_int(lvl, l.max_vibe@ as int) as u16
}

/// The heat integrator after `dt` ms at intensity `level`.
pub open spec fn spec_heat(acc: u64, level: u16, dt: u32, l: Limits) -> u64 {
    let gained = level as int * dt as int;
    let lost = sat_u64(l.heat.cool_per_ms as int * dt as int);
    let filled = sat_u64(acc + gained);
    if filled >= lost {
        (filled - lost) as u64
    } else {
        0
    }
}

/// Derating starts above the heat limit and ends below half of it.
pub open spec fn spec_derated(acc: u64, derated: bool, l: Limits) -> bool {
    if acc > l.heat.limit {
        true
    } else if acc < l.heat.limit / 2 {
        false
    } else {
        derated
    }
}

/// One vibration channel over a tick of `dt` ms: planner, heat, derating
/// flag, and output. The output is the channel's level under its ceilings,
/// and rises from the previous output `prev` by at most the slew ceiling
/// (which holds it back only when the channel leaves derating).
pub open spec fn spec_vibe_channel(
    p: PlannerModel,
    acc: u64,
    derated: bool,
    prev: u16,
    dt: u32,
    l: Limits,
) -> (PlannerModel, u64, bool, u16) {
    let p2 = spec_step(p, dt, l.vibe_slew_per_ms);
    let acc2 = spec_heat(acc, p2.current, dt, l);
    let d2 = spec_derated(acc2, derated, l);
    let level = channel_output(p2.current, d2, l);
    (p2, acc2, d2, min_int(level as int, prev + l.vibe_slew_per_ms as int * dt as int) as u16)
}

/// All planners at rest at zero and all outputs off.
pub open spec fn spec_kill(g: GovernorModel) -> GovernorModel {
    GovernorModel {
        vibe: Seq::new(VIBE_CHANNELS as nat, |i: int| spec_rest(0)),
        linear: Seq::new(LINEAR_CHANNELS as nat, |j: int| spec_rest(0)),
        outputs: spec_off(),
        ..g
    }
}

/// Latch `fault` unless a fault is already latched, and hard-off.
pub open spec fn spec_report(g: GovernorModel, fault: Fault) -> GovernorModel {
    if g.state is Faulted {
        spec_kill(g)
    } else {
        spec_kill(GovernorModel { state: State::Faulted(fault), ..g })
    }
}

/// Steer toward safe: vibration to zero at the slew ceiling, linear axes
/// hold position.
pub open spec fn spec_coast(g: GovernorModel, reason: CoastReason) -> GovernorModel {
    GovernorModel {
        state: State::Coasting(reason),
        vibe: g.vibe.map_values(|p: PlannerModel| spec_command(p, 0, Modifier::Immediate)),
        linear: g.linear.map_values(
            |p: PlannerModel| spec_command(p, p.current, Modifier::Immediate),
        ),
        ..g
    }
}

/// The governor after the transport reported the link down.
pub open spec fn spec_link_down(g: GovernorModel) -> GovernorModel {
    if g.state is Faulted {
        g
    } else {
        spec_coast(g, CoastReason::LinkDown)
    }
}

/// The governor after a command received at `now`, and what it did with it.
pub open spec fn spec_handle(g: GovernorModel, cmd: Command, now: u64) -> (GovernorModel, Disposition) {
    if g.state is Faulted {
        (g, Disposition::IgnoredFaulted)
    } else {
        match cmd {
            Command::Device(DeviceCommand::Stop) => (
                spec_coast(GovernorModel { last_command_ms: now, ..g }, CoastReason::StopCommand),
                Disposition::Applied,
            ),
            Command::Device(query) => (
                GovernorModel { last_command_ms: now, ..g },
                Disposition::Reply(query),
            ),
            Command::Move { axis, target, modifier } => {
                let i = axis.index as int;
                if axis.kind == AxisKind::Vibrate && i < VIBE_CHANNELS {
                    let t = min_int(target@ as int, g.limits.max_vibe@ as int) as u16;
                    (
                        GovernorModel {
                            vibe: g.vibe.update(i, spec_command(g.vibe[i], t, modifier)),
                            last_command_ms: now,
                            state: State::Active,
                            ..g
                        },
                        Disposition::Applied,
                    )
                } else if axis.kind == AxisKind::Linear && i < LINEAR_CHANNELS {
                    (
                        GovernorModel {
                            linear: g.linear.update(i, spec_command(g.linear[i], target@, modifier)),
                            last_command_ms: now,
                            state: State::Active,
                            ..g
                        },
                        Disposition::Applied,
                    )
                } else {
                    (GovernorModel { last_command_ms: now, ..g }, Disposition::IgnoredUnsupportedAxis)
                }
            },
        }
    }
}

/// The governor after a fault-clear request: back to `Idle` with a fresh
/// heat budget and everything off, but only if a fault is latched and the
/// sensors read healthy.
pub open spec fn spec_clear_fault(g: GovernorModel, s: Sensors) -> GovernorModel {
    if g.state is Faulted && spec_violation(s, g.limits) is None {
        spec_kill(
            GovernorModel {
                state: State::Idle,
                heat: Seq::new(VIBE_CHANNELS as nat, |i: int| 0u64),
                derated: Seq::new(VIBE_CHANNELS as nat, |i: int| false),
                ..g
            },
        )
    } else {
        g
    }
}

/// Milliseconds integrated by a tick at `now`: the time since the previous
/// tick (0 on the first tick or if time went backwards), clamped to
/// `max_tick_ms`.
pub open spec fn spec_dt(g: GovernorModel, now: u64) -> u32 {
    let raw: int = match g.last_tick_ms {
        None => 0,
        Some(prev) => if now >= prev {
            now - prev
        } else {
            0
        },
    };
    min_int(min_int(raw, u32::MAX as int), g.limits.max_tick_ms as int) as u32
}

/// The governor when a tick at `now` starts integrating: clock advanced,
/// sensor faults latched, link watchdog applied.
pub open spec fn spec_tick_prelude(g: GovernorModel, now: u64, s: Sensors) -> GovernorModel {
    let g1 = GovernorModel { last_tick_ms: Some(now), ..g };
    let g2 = match spec_violation(s, g.limits) {
        Some(f) => spec_report(g1, f),
        None => g1,
    };
    if g2.state is Faulted {
        spec_kill(g2)
    } else if g2.state == State::Active && (if now >= g2.last_command_ms {
        now - g2.last_command_ms
    } else {
        0
    }) > g2.limits.link_timeout_ms {
        spec_coast(g2, CoastReason::LinkTimeout)
    } else {
        g2
    }
}

/// The governor after a tick at `now` with readings `s`, and the outputs of
/// the tick.
pub open spec fn spec_tick(g: GovernorModel, now: u64, s: Sensors) -> (GovernorModel, OutputsModel) {
    let dt = spec_dt(g, now);
    let g3 = spec_tick_prelude(g, now, s);
    if g3.state is Faulted || dt == 0 {
        (g3, g3.outputs)
    } else {
        let ch = |i: int|
            spec_vibe_channel(
                g3.vibe[i],
                g3.heat[i],
                g3.derated[i],
                g3.outputs.vibe[i],
                dt,
                g3.limits,
            );
        let lin = g3.linear.map_values(|p: PlannerModel| spec_step(p, dt, g3.limits.linear_slew_per_ms));
        let out0 = OutputsModel {
            vibe: Seq::new(VIBE_CHANNELS as nat, |i: int| ch(i).3),
            linear: lin.map_values(|p: PlannerModel| p.current),
            driver_enable: false,
        };
        let out = OutputsModel { driver_enable: !spec_silent(out0), ..out0 };
        (
            GovernorModel {
                vibe: Seq::new(VIBE_CHANNELS as nat, |i: int| ch(i).0),
                heat: Seq::new(VIBE_CHANNELS as nat, |i: int| ch(i).1),
                derated: Seq::new(VIBE_CHANNELS as nat, |i: int| ch(i).2),
                linear: lin,
                outputs: out,
                ..g3
            },
            out,
        )
    }
}

/// What every reachable governor state satisfies.
pub open spec fn spec_inv(g: GovernorModel) -> bool {
    &&& g.vibe.len() == VIBE_CHANNELS
    &&& g.linear.len() == LINEAR_CHANNELS
    &&& g.heat.len() == VIBE_CHANNELS
    &&& g.derated.len() == VIBE_CHANNELS
    &&& g.outputs.vibe.len() == VIBE_CHANNELS
    &&& g.outputs.linear.len() == LINEAR_CHANNELS
    &&& g.limits.max_vibe@ < 10_000
    &&& g.limits.heat.derate@ < 10_000
    // Vibration setpoints and targets never exceed the ceiling.
    &&& forall|i: int|
        0 <= i < VIBE_CHANNELS ==> (#[trigger] g.vibe[i]).wf() && g.vibe[i].current
            <= g.limits.max_vibe@ && g.vibe[i].target <= g.limits.max_vibe@
    &&& forall|j: int| 0 <= j < LINEAR_CHANNELS ==> (#[trigger] g.linear[j]).wf()
    // The last vibration outputs are at most what the planners and derating
    // flags give (less only while catching up after derating).
    &&& forall|i: int|
        0 <= i < VIBE_CHANNELS ==> #[trigger] g.outputs.vibe[i] <= channel_output(
            g.vibe[i].current,
            g.derated[i],
            g.limits,
        )
    &&& forall|j: int|
        0 <= j < LINEAR_CHANNELS ==> #[trigger] g.outputs.linear[j] == g.linear[j].current
    &&& g.outputs.driver_enable == !spec_silent(g.outputs)
    // Idle and faulted governors rest at zero.
    &&& (g.state is Idle || g.state is Faulted) ==> (forall|i: int|
        0 <= i < VIBE_CHANNELS ==> #[trigger] g.vibe[i] == spec_rest(0)) && (forall|j: int|
        0 <= j < LINEAR_CHANNELS ==> #[trigger] g.linear[j] == spec_rest(0))
    // A coasting governor steers vibration to zero at the slew ceiling.
    &&& g.state is Coasting ==> forall|i: int|
        0 <= i < VIBE_CHANNELS ==> (#[trigger] g.vibe[i]).target == 0 && g.vibe[i].remaining_ms
            == 0 && g.vibe[i].rate_per_s == 0
}


/// A freshly constructed governor.
pub open spec fn spec_new(limits: Limits) -> GovernorModel {
    GovernorModel {
        limits,
        state: State::Idle,
        vibe: Seq::new(VIBE_CHANNELS as nat, |i: int| spec_rest(0)),
        linear: Seq::new(LINEAR_CHANNELS as nat, |j: int| spec_rest(0)),
        heat: Seq::new(VIBE_CHANNELS as nat, |i: int| 0u64),
        derated: Seq::new(VIBE_CHANNELS as nat, |i: int| false),
        last_command_ms: 0,
        last_tick_ms: None,
        outputs: spec_off(),
    }
}


/// Sizes and limit ranges, which every operation keeps.
pub open spec fn spec_shape(g: GovernorModel) -> bool {
    &&& g.vibe.len() == VIBE_CHANNELS
    &&& g.linear.len() == LINEAR_CHANNELS
    &&& g.heat.len() == VIBE_CHANNELS
    &&& g.derated.len() == VIBE_CHANNELS
    &&& g.limits.max_vibe@ < 10_000
    &&& g.limits.heat.derate@ < 10_000
}

proof fn lemma_off_silent()
    ensures
        spec_silent(spec_off()),
        spec_off().vibe.len() == VIBE_CHANNELS,
        spec_off().linear.len() == LINEAR_CHANNELS,
{
}

/// Hard-off yields a valid governor from any well-shaped one.
pub proof fn lemma_kill_inv(g: GovernorModel)
    requires
        spec_shape(g),
    ensures
        spec_inv(spec_kill(g)),
{
    lemma_off_silent();
    let k = spec_kill(g);
    assert forall|i: int| 0 <= i < VIBE_CHANNELS implies #[trigger] k.outputs.vibe[i]
        <= channel_output(k.vibe[i].current, k.derated[i], k.limits) by {
        assert(k.vibe[i] == spec_rest(0));
    }
}

pub proof fn lemma_coast_inv(g: GovernorModel, reason: CoastReason)
    requires
        spec_inv(g),
    ensures
        spec_inv(spec_coast(g, reason)),
{
    let c = spec_coast(g, reason);
    assert forall|i: int| 0 <= i < VIBE_CHANNELS implies #[trigger] c.outputs.vibe[i]
        <= channel_output(c.vibe[i].current, c.derated[i], c.limits) by {
        assert(c.vibe[i].current == g.vibe[i].current);
    }
    assert forall|j: int| 0 <= j < LINEAR_CHANNELS implies #[trigger] c.outputs.linear[j]
        == c.linear[j].current by {
        assert(c.linear[j].current == g.linear[j].current);
    }
    assert forall|i: int| 0 <= i < VIBE_CHANNELS implies (#[trigger] c.vibe[i]).wf()
        && c.vibe[i].current <= c.limits.max_vibe@ && c.vibe[i].target <= c.limits.max_vibe@ by {
        assert(g.vibe[i].wf());
    }
    assert forall|j: int| 0 <= j < LINEAR_CHANNELS implies (#[trigger] c.linear[j]).wf() by {
        assert(g.linear[j].wf());
    }
}

/// A command whose target, if any, is a valid magnitude (as every
/// constructed `Command` is).
pub open spec fn spec_command_valid(cmd: Command) -> bool {
    cmd matches Command::Move { target, .. } ==> target@ < 10_000
}

pub proof fn lemma_handle_inv(g: GovernorModel, cmd: Command, now: u64)
    requires
        spec_inv(g),
        spec_command_valid(cmd),
    ensures
        spec_inv(spec_handle(g, cmd, now).0),
{
    if !(g.state is Faulted) {
        match cmd {
            Command::Device(DeviceCommand::Stop) => {
                lemma_coast_inv(GovernorModel { last_command_ms: now, ..g }, CoastReason::StopCommand);
            },
            Command::Device(_) => {},
            Command::Move { axis, target, modifier } => {
                let h = spec_handle(g, cmd, now).0;
                let i = axis.index as int;
                if axis.kind == AxisKind::Vibrate && i < VIBE_CHANNELS {
                    assert forall|k: int| 0 <= k < VIBE_CHANNELS implies #[trigger] h.outputs.vibe[k]
                        <= channel_output(h.vibe[k].current, h.derated[k], h.limits) by {
                        assert(h.vibe[k].current == g.vibe[k].current);
                    }
                    assert forall|k: int| 0 <= k < VIBE_CHANNELS implies (#[trigger] h.vibe[k]).wf()
                        && h.vibe[k].current <= h.limits.max_vibe@ && h.vibe[k].target
                        <= h.limits.max_vibe@ by {
                        assert(g.vibe[k].wf());
                    }
                } else if axis.kind == AxisKind::Linear && i < LINEAR_CHANNELS {
                    assert forall|k: int| 0 <= k < LINEAR_CHANNELS implies #[trigger] h.outputs.linear[k]
                        == h.linear[k].current by {
                        assert(h.linear[k].current == g.linear[k].current);
                    }
                    assert forall|k: int| 0 <= k < LINEAR_CHANNELS implies (#[trigger] h.linear[k]).wf() by {
                        assert(g.linear[k].wf());
                    }
                }
            },
        }
    }
}

pub proof fn lemma_prelude_inv(g: GovernorModel, now: u64, s: Sensors)
    requires
        spec_inv(g),
    ensures
        spec_inv(spec_tick_prelude(g, now, s)),
        spec_tick_prelude(g, now, s).limits == g.limits,
        spec_tick_prelude(g, now, s).derated == g.derated,
        spec_tick_prelude(g, now, s).heat == g.heat,
        !(spec_tick_prelude(g, now, s).state is Faulted) ==> spec_tick_prelude(g, now, s).outputs
            == g.outputs && forall|i: int|
            0 <= i < VIBE_CHANNELS ==> (#[trigger] spec_tick_prelude(g, now, s).vibe[i]).current
                == g.vibe[i].current,
        spec_violation(s, g.limits) is Some ==> spec_tick_prelude(g, now, s).state is Faulted,
        g.state is Faulted ==> spec_tick_prelude(g, now, s).state == g.state,
        spec_tick_prelude(g, now, s).state is Faulted ==> spec_tick_prelude(g, now, s).outputs
            == spec_off(),
{
    let g1 = GovernorModel { last_tick_ms: Some(now), ..g };
    let g2 = match spec_violation(s, g.limits) {
        Some(f) => spec_report(g1, f),
        None => g1,
    };
    if let Some(f) = spec_violation(s, g.limits) {
        lemma_kill_inv(if g1.state is Faulted { g1 } else { GovernorModel { state: State::Faulted(f), ..g1 } });
    }
    if g2.state is Faulted {
        lemma_kill_inv(g2);
    } else if g2.state == State::Active && (if now >= g2.last_command_ms {
        now - g2.last_command_ms
    } else {
        0
    }) > g2.limits.link_timeout_ms {
        lemma_coast_inv(g2, CoastReason::LinkTimeout);
        let c = spec_coast(g2, CoastReason::LinkTimeout);
        assert forall|i: int| 0 <= i < VIBE_CHANNELS implies (#[trigger] c.vibe[i]).current
            == g.vibe[i].current by {
        }
    }
}

pub proof fn lemma_tick_inv(g: GovernorModel, now: u64, s: Sensors)
    requires
        spec_inv(g),
    ensures
        spec_inv(spec_tick(g, now, s).0),
        spec_tick(g, now, s).1 == spec_tick(g, now, s).0.outputs,
{
    lemma_prelude_inv(g, now, s);
    let dt = spec_dt(g, now);
    let g3 = spec_tick_prelude(g, now, s);
    if !(g3.state is Faulted || dt == 0) {
        let t = spec_tick(g, now, s).0;
        let l = g3.limits;
        assert forall|i: int| 0 <= i < VIBE_CHANNELS implies (#[trigger] t.vibe[i]).wf()
            && t.vibe[i].current <= l.max_vibe@ && t.vibe[i].target <= l.max_vibe@ by {
            lemma_step(g3.vibe[i], dt, l.vibe_slew_per_ms);
        }
        assert forall|j: int| 0 <= j < LINEAR_CHANNELS implies (#[trigger] t.linear[j]).wf() by {
            lemma_step(g3.linear[j], dt, l.linear_slew_per_ms);
        }
        if g3.state is Idle {
            assert forall|i: int| 0 <= i < VIBE_CHANNELS implies #[trigger] t.vibe[i]
                == spec_rest(0) by {
                assert(g3.vibe[i] == spec_rest(0));
            }
            assert forall|j: int| 0 <= j < LINEAR_CHANNELS implies #[trigger] t.linear[j]
                == spec_rest(0) by {
                assert(g3.linear[j] == spec_rest(0));
            }
        }
        assert(t.vibe.len() == VIBE_CHANNELS);
        assert(t.heat.len() == VIBE_CHANNELS);
        assert(t.derated.len() == VIBE_CHANNELS);
        assert(t.outputs.vibe.len() == VIBE_CHANNELS);
        assert(t.outputs.linear.len() == LINEAR_CHANNELS);
        assert(t.linear.len() == LINEAR_CHANNELS);
        assert forall|i: int| 0 <= i < VIBE_CHANNELS implies #[trigger] t.outputs.vibe[i]
            <= channel_output(t.vibe[i].current, t.derated[i], t.limits) by {
        }
        assert forall|j: int| 0 <= j < LINEAR_CHANNELS implies #[trigger] t.outputs.linear[j]
            == t.linear[j].current by {
        }
        assert(t.outputs.driver_enable == !spec_silent(t.outputs));
        if g3.state is Coasting {
            assert forall|i: int| 0 <= i < VIBE_CHANNELS implies (#[trigger] t.vibe[i]).target == 0
                && t.vibe[i].remaining_ms == 0 && t.vibe[i].rate_per_s == 0 by {
                lemma_step(g3.vibe[i], dt, l.vibe_slew_per_ms);
                assert(g3.vibe[i].target == 0);
            }
        }
    }
}

/// The laws a tick keeps: the ceiling, the driver-enable rule, faults on
/// sensor violations, the fault latch, the derate ceiling, and the slew
/// bound on every channel.
pub proof fn lemma_tick_laws(g: GovernorModel, now: u64, s: Sensors)
    requires
        spec_inv(g),
    ensures
        ({
            let (t, out) = spec_tick(g, now, s);
            &&& forall|i: int| 0 <= i < VIBE_CHANNELS ==> #[trigger] out.vibe[i] <= g.limits.max_vibe@
            &&& out.driver_enable == !spec_silent(out)
            &&& spec_violation(s, g.limits) is Some ==> t.state is Faulted && out == spec_off()
            &&& g.state is Faulted ==> t.state == g.state && out == spec_off()
            &&& forall|i: int|
                0 <= i < VIBE_CHANNELS ==> #[trigger] out.vibe[i] <= g.outputs.vibe[i]
                    + g.limits.vibe_slew_per_ms as int * spec_dt(g, now) as int
            &&& forall|i: int|
                0 <= i < VIBE_CHANNELS && #[trigger] t.derated[i] ==> out.vibe[i]
                    <= g.limits.heat.derate@
            &&& t.state is Idle ==> out == spec_off()
        }),
{
    lemma_tick_inv(g, now, s);
    let (t0, out0) = spec_tick(g, now, s);
    assert forall|i: int| 0 <= i < VIBE_CHANNELS && #[trigger] t0.derated[i] implies out0.vibe[i]
        <= g.limits.heat.derate@ by {
        assert(out0.vibe[i] <= channel_output(t0.vibe[i].current, t0.derated[i], t0.limits));
    }
    if t0.state is Idle {
        assert forall|i: int| 0 <= i < VIBE_CHANNELS implies out0.vibe[i] == 0u16 by {
            assert(t0.vibe[i] == spec_rest(0));
            assert(out0.vibe[i] <= channel_output(t0.vibe[i].current, t0.derated[i], t0.limits));
        }
        assert forall|j: int| 0 <= j < LINEAR_CHANNELS implies out0.linear[j] == 0u16 by {
            assert(t0.linear[j] == spec_rest(0));
        }
        assert(out0.vibe =~= spec_off().vibe);
        assert(out0.linear =~= spec_off().linear);
    }
    lemma_prelude_inv(g, now, s);
    let dt = spec_dt(g, now);
    let g3 = spec_tick_prelude(g, now, s);
    let (t, out) = spec_tick(g, now, s);
    assert(0 <= g.limits.vibe_slew_per_ms as int * dt as int) by (nonlinear_arith);
    if !(g3.state is Faulted || dt == 0) {
        let l = g.limits;
        assert forall|i: int| 0 <= i < VIBE_CHANNELS implies #[trigger] out.vibe[i]
            <= g.outputs.vibe[i] + l.vibe_slew_per_ms as int * dt as int by {
            lemma_step(g3.vibe[i], dt, l.vibe_slew_per_ms);
            assert(g3.vibe[i].current == g.vibe[i].current);
            assert(g.outputs.vibe[i] <= channel_output(g.vibe[i].current, g.derated[i], l));
        }
    }
}

/// A move for a fitted axis keeps the host's timing: the axis's planner
/// takes the new target with the modifier the host sent (a vibration target
/// clamped to the ceiling), every other planner is untouched, and the link
/// watchdog restarts.
pub proof fn lemma_move_keeps_modifier(g: GovernorModel, axis: Axis, target: Fraction, modifier: Modifier, t: u64)
    requires
        !(g.state is Faulted),
        spec_shape(g),
    ensures
        ({
            let (h, d) = spec_handle(g, Command::Move { axis, target, modifier }, t);
            let i = axis.index as int;
            &&& axis.kind == AxisKind::Linear && i < LINEAR_CHANNELS ==> {
                &&& h.linear[i] == spec_command(g.linear[i], target@, modifier)
                &&& forall|j: int| 0 <= j < LINEAR_CHANNELS && j != i ==> #[trigger] h.linear[j] == g.linear[j]
                &&& h.vibe == g.vibe
                &&& d == Disposition::Applied
                &&& h.state == State::Active
            }
            &&& axis.kind == AxisKind::Vibrate && i < VIBE_CHANNELS ==> {
                &&& h.vibe[i] == spec_command(
                    g.vibe[i],
                    if target@ <= g.limits.max_vibe@ { target@ } else { g.limits.max_vibe@ },
                    modifier,
                )
                &&& forall|j: int| 0 <= j < VIBE_CHANNELS && j != i ==> #[trigger] h.vibe[j] == g.vibe[j]
                &&& h.linear == g.linear
                &&& d == Disposition::Applied
                &&& h.state == State::Active
            }
            &&& h.last_command_ms == t
            &&& h.outputs == g.outputs
            &&& h.heat == g.heat
        }),
{
}

/// Heat only drains at the cooling rate: on a tick that integrates `dt`
/// milliseconds, each channel's heat becomes its old heat plus its new level
/// times `dt` (saturating) minus `cool_per_ms * dt` (saturating), floored at
/// zero, whatever the level, zero included; so it never falls by more than
/// `cool_per_ms * dt`. A tick that integrates nothing (faulted, or no time
/// elapsed) leaves the heat as it was.
pub proof fn lemma_heat_drains_at_cooling_rate(g: GovernorModel, now: u64, s: Sensors)
    requires
        spec_inv(g),
    ensures
        ({
            let (t, out) = spec_tick(g, now, s);
            let dt = spec_dt(g, now) as int;
            let cool = g.limits.heat.cool_per_ms as int;
            &&& forall|i: int|
                0 <= i < VIBE_CHANNELS && (t.state is Faulted || dt == 0) ==> #[trigger] t.heat[i]
                    == g.heat[i]
            &&& forall|i: int|
                0 <= i < VIBE_CHANNELS && !(t.state is Faulted || dt == 0) ==> {
                    let filled = if g.heat[i] + t.vibe[i].current * dt > u64::MAX {
                        u64::MAX as int
                    } else {
                        g.heat[i] + t.vibe[i].current * dt
                    };
                    let lost = if cool * dt > u64::MAX {
                        u64::MAX as int
                    } else {
                        cool * dt
                    };
                    #[trigger] t.heat[i] == if filled >= lost {
                        filled - lost
                    } else {
                        0
                    }
                }
            &&& forall|i: int| 0 <= i < VIBE_CHANNELS ==> #[trigger] t.heat[i] + cool * dt >= g.heat[i]
        }),
{
    lemma_prelude_inv(g, now, s);
    let dt = spec_dt(g, now) as int;
    let cool = g.limits.heat.cool_per_ms as int;
    assert(0 <= cool * dt) by (nonlinear_arith)
        requires
            cool >= 0,
            dt >= 0,
    ;
    let (t, out) = spec_tick(g, now, s);
    assert forall|i: int| 0 <= i < VIBE_CHANNELS implies #[trigger] t.heat[i] + cool * dt
        >= g.heat[i] by {
        if !(t.state is Faulted || dt == 0) {
            assert(0 <= t.vibe[i].current * dt) by (nonlinear_arith)
                requires
                    dt >= 0,
            ;
        }
    }
}

/// A successful fault clear (latched fault, readings within the limits)
/// returns to `Idle` with everything off and a fresh thermal budget: every
/// heat accumulator at zero and no channel derated. Any other clear request
/// changes nothing.
pub proof fn lemma_clear_fault_fresh_budget(g: GovernorModel, s: Sensors)
    requires
        spec_shape(g),
    ensures
        ({
            let c = spec_clear_fault(g, s);
            &&& (g.state is Faulted && spec_violation(s, g.limits) is None) ==> {
                &&& c.state == State::Idle
                &&& c.outputs == spec_off()
                &&& forall|i: int| 0 <= i < VIBE_CHANNELS ==> #[trigger] c.heat[i] == 0 && !c.derated[i]
                &&& c.limits == g.limits
            }
            &&& !(g.state is Faulted && spec_violation(s, g.limits) is None) ==> c == g
        }),
{
}

// ---------------------------------------------------------------------------
// Implementation.
// ---------------------------------------------------------------------------

impl Limits {
    /// Check the invariants the governor relies on.
    ///
    /// # Errors
    /// Returns the first violated invariant.
    pub fn validated(self) -> (r: Result<Self, LimitsError>)
        ensures
            r == spec_validated(self),
    {
        if self.vibe_slew_per_ms == 0 || self.linear_slew_per_ms == 0 {
            return Err(LimitsError::ZeroSlew);
        }
        if self.link_timeout_ms == 0 {
            return Err(LimitsError::ZeroLinkTimeout);
        }
        if self.heat.derate.raw() > self.max_vibe.raw() {
            return Err(LimitsError::DerateAboveCeiling);
        }
        if self.max_tick_ms == 0 {
            return Err(LimitsError::ZeroMaxTick);
        }
        Ok(self)
    }
}

impl Default for Limits {
    /// Conservative defaults for a small ERM/LRA vibration motor in a
    /// body-contact enclosure powered from 5 V USB: 80 % ceiling, 0 to 100 %
    /// in no less than 500 ms, full stroke in no less than 200 ms, a 2 s link
    /// watchdog, derating to 40 % after roughly ten minutes at full
    /// intensity, and faults at 42.0 C, 1.5 A and below 4.0 V.
    fn default() -> (r: Self)
        ensures
            r == spec_default_limits(),
    {
        Limits {
            max_vibe: Fraction::saturating(8_000),
            vibe_slew_per_ms: 20,
            linear_slew_per_ms: 50,
            link_timeout_ms: 2_000,
            heat: HeatBudget {
                limit: 4_200_000_000,
                cool_per_ms: 3_000,
                derate: Fraction::saturating(4_000),
            },
            max_temperature_dc: 420,
            max_current_ma: 1_500,
            min_supply_mv: 4_000,
            max_tick_ms: 250,
        }
    }
}

impl Sensors {
    /// The first limit a reading violates, if any.
    pub fn violation(&self, limits: &Limits) -> (r: Option<Fault>)
        ensures
            r == spec_violation(*self, *limits),
    {
        if let Some(t) = self.temperature_dc {
            if t > limits.max_temperature_dc {
                return Some(Fault::OverTemperature);
            }
        }
        if let Some(i) = self.motor_current_ma {
            if i > limits.max_current_ma {
                return Some(Fault::OverCurrent);
            }
        }
        if let Some(v) = self.supply_mv {
            if v < limits.min_supply_mv {
                return Some(Fault::UnderVoltage);
            }
        }
        None
    }
}

impl Default for Sensors {
    /// No sensor fitted.
    fn default() -> (r: Self)
        ensures
            r.temperature_dc is None,
            r.motor_current_ma is None,
            r.supply_mv is None,
    {
        Sensors { temperature_dc: None, motor_current_ma: None, supply_mv: None }
    }
}

impl Outputs {
    /// Everything off.
    pub fn off() -> (r: Self)
        ensures
            r@ == spec_off(),
    {
        let z = Fraction::zero();
        let r = Outputs { vibe: [z, z], linear: [z], driver_enable: false };
        assert(r@.vibe =~= spec_off().vibe);
        assert(r@.linear =~= spec_off().linear);
        r
    }

    /// True when every channel is at zero.
    pub fn is_silent(&self) -> (r: bool)
        ensures
            r == spec_silent(self@),
    {
        let r = self.vibe[0].raw() == 0 && self.vibe[1].raw() == 0 && self.linear[0].raw() == 0;
        assert(self@.vibe.len() == 2 && self@.vibe[0] == self.vibe[0]@ && self@.vibe[1]
            == self.vibe[1]@);
        assert(self@.linear.len() == 1 && self@.linear[0] == self.linear[0]@);
        r
    }
}

impl Default for Outputs {
    /// Everything off.
    fn default() -> (r: Self)
        ensures
            r@ == spec_off(),
    {
        Self::off()
    }
}

/// `a * b`, clamped to `u64::MAX`.
fn saturating_mul_u64(a: u64, b: u64) -> (r: u64)
    ensures
        r as int == sat_u64(a as int * b as int),
{
    assert(0 <= a as int * b as int <= u64::MAX as int * u64::MAX as int) by (nonlinear_arith)
        requires
            a <= u64::MAX,
            b <= u64::MAX,
    ;
    let wide: u128 = a as u128 * b as u128;
    if wide > u64::MAX as u128 {
        u64::MAX
    } else {
        wide as u64
    }
}

/// The safety governor. See the [module docs](self) for the guarantees.
#[derive(Clone, Debug)]
pub struct Governor {
    limits: Limits,
    state: State,
    vibe: [AxisPlanner; VIBE_CHANNELS],
    linear: [AxisPlanner; LINEAR_CHANNELS],
    heat: [u64; VIBE_CHANNELS],
    derated: [bool; VIBE_CHANNELS],
    last_command_ms: u64,
    last_tick_ms: Option<u64>,
    outputs: Outputs,
}

impl View for Governor {
    type V = GovernorModel;

    closed spec fn view(&self) -> GovernorModel {
        GovernorModel {
            limits: self.limits,
            state: self.state,
            vibe: self.vibe@.map_values(|p: AxisPlanner| p@),
            linear: self.linear@.map_values(|p: AxisPlanner| p@),
            heat: self.heat@,
            derated: self.derated@,
            last_command_ms: self.last_command_ms,
            last_tick_ms: self.last_tick_ms,
            outputs: self.outputs@,
        }
    }
}

impl Governor {
    /// What every governor satisfies between calls.
    pub open spec fn inv(&self) -> bool {
        spec_inv(self@)
    }

    /// A governor in [`State::Idle`] with all outputs off.
    pub fn new(limits: Limits) -> (r: Self)
        ensures
            r@ == spec_new(limits),
            r.inv(),
    {
        let _ = limits.max_vibe.raw();
        let _ = limits.heat.derate.raw();
        let p = AxisPlanner::new(Fraction::zero());
        let r = Governor {
            limits,
            state: State::Idle,
            vibe: [p, p],
            linear: [p],
            heat: [0, 0],
            derated: [false, false],
            last_command_ms: 0,
            last_tick_ms: None,
            outputs: Outputs::off(),
        };
        assert(r@.vibe =~= spec_new(limits).vibe);
        assert(r@.linear =~= spec_new(limits).linear);
        assert(r@.heat =~= spec_new(limits).heat);
        assert(r@.derated =~= spec_new(limits).derated);
        r
    }

    /// Current state.
    pub fn state(&self) -> (r: State)
        ensures
            r == self@.state,
    {
        self.state
    }

    /// The limits in force.
    pub fn limits(&self) -> (r: &Limits)
        ensures
            *r == self@.limits,
    {
        &self.limits
    }

    /// Outputs from the most recent tick.
    pub fn outputs(&self) -> (r: Outputs)
        ensures
            r@ == self@.outputs,
    {
        self.outputs
    }

    /// Whether a channel is currently thermally derated.
    pub fn is_derated(&self, vibe_channel: usize) -> (r: bool)
        ensures
            r == (vibe_channel < VIBE_CHANNELS && self@.derated[vibe_channel as int]),
    {
        if vibe_channel < VIBE_CHANNELS {
            self.derated[vibe_channel]
        } else {
            false
        }
    }

    /// Feed a parsed command received at `now_ms`.
    ///
    /// A latched fault ignores every command; no command clears or causes a
    /// fault, and none changes the outputs until the next tick. Otherwise
    /// every command, including a query or a move for an axis this device
    /// does not have, counts as host activity and restarts the link watchdog.
    pub fn handle(&mut self, cmd: &Command, now_ms: u64) -> (r: Disposition)
        requires
            old(self).inv(),
        ensures
            final(self).inv(),
            (final(self)@, r) == spec_handle(old(self)@, *cmd, now_ms),
            old(self)@.state is Faulted ==> r == Disposition::IgnoredFaulted && final(self)@
                == old(self)@,
            (final(self)@.state is Faulted) == (old(self)@.state is Faulted),
            final(self)@.outputs == old(self)@.outputs,
    {
        if let Command::Move { target, .. } = *cmd {
            let _ = target.raw();
        }
        proof {
            lemma_handle_inv(self@, *cmd, now_ms);
        }
        if matches!(self.state, State::Faulted(_)) {
            return Disposition::IgnoredFaulted;
        }
        match *cmd {
            Command::Device(DeviceCommand::Stop) => {
                self.last_command_ms = now_ms;
                self.coast(CoastReason::StopCommand);
                Disposition::Applied
            },
            Command::Device(query) => {
                self.last_command_ms = now_ms;
                Disposition::Reply(query)
            },
            Command::Move { axis, target, modifier } => {
                let idx = axis.index as usize;
                if axis.kind == AxisKind::Vibrate && idx < VIBE_CHANNELS {
                    let t = target.min(self.limits.max_vibe);
                    self.vibe[idx].command(t, modifier);
                    assert(self@.vibe =~= old(self)@.vibe.update(
                        idx as int,
                        spec_command(old(self)@.vibe[idx as int], t@, modifier),
                    ));
                } else if axis.kind == AxisKind::Linear && idx < LINEAR_CHANNELS {
                    self.linear[idx].command(target, modifier);
                    assert(self@.linear =~= old(self)@.linear.update(
                        idx as int,
                        spec_command(old(self)@.linear[idx as int], target@, modifier),
                    ));
                } else {
                    // Still host activity: the link watchdog restarts.
                    self.last_command_ms = now_ms;
                    return Disposition::IgnoredUnsupportedAxis;
                }
                self.last_command_ms = now_ms;
                self.state = State::Active;
                Disposition::Applied
            },
        }
    }

    /// The transport lost the host (USB suspend, DTR dropped, socket closed).
    pub fn link_down(&mut self)
        requires
            old(self).inv(),
        ensures
            final(self).inv(),
            final(self)@ == spec_link_down(old(self)@),
    {
        proof {
            lemma_coast_inv(self@, CoastReason::LinkDown);
        }
        if !matches!(self.state, State::Faulted(_)) {
            self.coast(CoastReason::LinkDown);
        }
    }

    /// Latch a fault. Outputs are off at once; the first cause latched is
    /// kept.
    pub fn report(&mut self, fault: Fault)
        requires
            old(self).inv(),
        ensures
            final(self).inv(),
            final(self)@ == spec_report(old(self)@, fault),
            final(self)@.state == (if old(self)@.state is Faulted {
                old(self)@.state
            } else {
                State::Faulted(fault)
            }),
            final(self)@.outputs == spec_off(),
    {
        proof {
            lemma_kill_inv(
                if self@.state is Faulted {
                    self@
                } else {
                    GovernorModel { state: State::Faulted(fault), ..self@ }
                },
            );
        }
        self.latch(fault);
    }

    /// Attempt to clear a latched fault after a deliberate local action.
    /// Succeeds only if `sensors` are within limits. Returns the new state.
    pub fn clear_fault(&mut self, sensors: &Sensors) -> (r: State)
        requires
            old(self).inv(),
        ensures
            final(self).inv(),
            final(self)@ == spec_clear_fault(old(self)@, *sensors),
            r == final(self)@.state,
            (old(self)@.state is Faulted && spec_violation(*sensors, old(self)@.limits) is None)
                ==> r == State::Idle && final(self)@.outputs == spec_off(),
            !(old(self)@.state is Faulted && spec_violation(*sensors, old(self)@.limits) is None)
                ==> final(self)@ == old(self)@,
    {
        if matches!(self.state, State::Faulted(_)) && sensors.violation(&self.limits).is_none() {
            self.state = State::Idle;
            self.heat = [0, 0];
            self.derated = [false, false];
            let ghost reset = self@;
            proof {
                lemma_kill_inv(reset);
            }
            self.kill();
            assert(reset.heat =~= Seq::new(VIBE_CHANNELS as nat, |i: int| 0u64));
            assert(reset.derated =~= Seq::new(VIBE_CHANNELS as nat, |i: int| false));
        }
        self.state
    }

    /// Advance to `now_ms` and compute the outputs for this period.
    ///
    /// Every vibration output is within the ceiling; the driver is enabled
    /// exactly when some output is non-zero; a sensor reading outside the
    /// limits faults the governor on this very tick; a latched fault keeps
    /// everything off; and a vibration output rises by at most the slew
    /// ceiling over the clamped `dt`, also on the tick its channel leaves
    /// derating.
    pub fn tick(&mut self, now_ms: u64, sensors: &Sensors) -> (r: Outputs)
        requires
            old(self).inv(),
        ensures
            final(self).inv(),
            (final(self)@, r@) == spec_tick(old(self)@, now_ms, *sensors),
            forall|i: int|
                0 <= i < VIBE_CHANNELS ==> #[trigger] r@.vibe[i] <= old(self)@.limits.max_vibe@,
            r.driver_enable == !spec_silent(r@),
            spec_violation(*sensors, old(self)@.limits) is Some ==> final(self)@.state is Faulted
                && r@ == spec_off(),
            old(self)@.state is Faulted ==> final(self)@.state == old(self)@.state && r@
                == spec_off(),
            forall|i: int|
                0 <= i < VIBE_CHANNELS ==> #[trigger] r@.vibe[i] <= old(self)@.outputs.vibe[i]
                    + old(self)@.limits.vibe_slew_per_ms as int * spec_dt(old(self)@, now_ms) as int,
            forall|i: int|
                0 <= i < VIBE_CHANNELS && #[trigger] final(self)@.derated[i] ==> r@.vibe[i]
                    <= old(self)@.limits.heat.derate@,
            final(self)@.state is Idle ==> r@ == spec_off(),
    {
        proof {
            lemma_tick_inv(self@, now_ms, *sensors);
            lemma_tick_laws(self@, now_ms, *sensors);
        }
        let dt = self.advance_clock(now_ms);
        match sensors.violation(&self.limits) {
            Some(fault) => self.latch(fault),
            None => {},
        }
        if matches!(self.state, State::Faulted(_)) {
            self.kill();
            return self.outputs;
        }
        if self.state == State::Active && now_ms.saturating_sub(self.last_command_ms)
            > self.limits.link_timeout_ms as u64 {
            self.coast(CoastReason::LinkTimeout);
        }
        if dt == 0 {
            return self.outputs;
        }
        let ghost g3 = self@;
        let v0 = self.vibe_channel(0, dt);
        let v1 = self.vibe_channel(1, dt);
        let l0 = self.linear[0].step(dt, self.limits.linear_slew_per_ms);
        let mut out = Outputs { vibe: [v0, v1], linear: [l0], driver_enable: false };
        out.driver_enable = !out.is_silent();
        self.outputs = out;
        proof {
            let expected = spec_tick(old(self)@, now_ms, *sensors);
            assert(self@.vibe =~= expected.0.vibe);
            assert(self@.heat =~= expected.0.heat);
            assert(self@.derated =~= expected.0.derated);
            assert(self@.linear =~= expected.0.linear);
            assert(out@.vibe =~= expected.1.vibe);
            assert(out@.linear =~= expected.1.linear);
        }
        out
    }

    /// Immediate hard-off.
    fn kill(&mut self)
        ensures
            final(self)@ == spec_kill(old(self)@),
    {
        let z = Fraction::zero();
        self.vibe[0].force(z);
        self.vibe[1].force(z);
        self.linear[0].force(z);
        self.outputs = Outputs::off();
        assert(self@.vibe =~= spec_kill(old(self)@).vibe);
        assert(self@.linear =~= spec_kill(old(self)@).linear);
    }

    /// Latch `fault` unless one is latched already, and hard-off.
    fn latch(&mut self, fault: Fault)
        ensures
            final(self)@ == spec_report(old(self)@, fault),
    {
        if !matches!(self.state, State::Faulted(_)) {
            self.state = State::Faulted(fault);
        }
        self.kill();
    }

    /// Steer toward safe: vibration to zero, linear holds position.
    ///
    /// Uses an `Immediate` command so that a slow `I`/`S` modifier chosen by
    /// the host cannot stretch the ramp-down; only the governor's own slew
    /// ceiling bounds it.
    fn coast(&mut self, reason: CoastReason)
        ensures
            final(self)@ == spec_coast(old(self)@, reason),
    {
        self.state = State::Coasting(reason);
        let z = Fraction::zero();
        self.vibe[0].command(z, Modifier::Immediate);
        self.vibe[1].command(z, Modifier::Immediate);
        let hold = self.linear[0].current();
        self.linear[0].command(hold, Modifier::Immediate);
        assert(self@.vibe =~= spec_coast(old(self)@, reason).vibe);
        assert(self@.linear =~= spec_coast(old(self)@, reason).linear);
    }

    /// Clamped `dt` since the previous tick (0 on the first call or if time
    /// went backwards), recording `now_ms` as the latest tick.
    fn advance_clock(&mut self, now_ms: u64) -> (r: u32)
        ensures
            r == spec_dt(old(self)@, now_ms),
            final(self)@ == (GovernorModel { last_tick_ms: Some(now_ms), ..old(self)@ }),
    {
        let raw: u64 = match self.last_tick_ms {
            None => 0,
            Some(prev) => now_ms.saturating_sub(prev),
        };
        self.last_tick_ms = Some(now_ms);
        let dt: u32 = if raw > u32::MAX as u64 {
            u32::MAX
        } else {
            raw as u32
        };
        if dt < self.limits.max_tick_ms {
            dt
        } else {
            self.limits.max_tick_ms
        }
    }

    /// Advance vibration channel `i` by `dt` ms: planner, heat integrator,
    /// derating, and the channel's output.
    fn vibe_channel(&mut self, i: usize, dt: u32) -> (r: Fraction)
        requires
            i < VIBE_CHANNELS,
        ensures
            ({
                let (p, acc, d, out) = spec_vibe_channel(
                    old(self)@.vibe[i as int],
                    old(self)@.heat[i as int],
                    old(self)@.derated[i as int],
                    old(self)@.outputs.vibe[i as int],
                    dt,
                    old(self)@.limits,
                );
                &&& final(self)@ == GovernorModel {
                    vibe: old(self)@.vibe.update(i as int, p),
                    heat: old(self)@.heat.update(i as int, acc),
                    derated: old(self)@.derated.update(i as int, d),
                    ..old(self)@
                }
                &&& r@ == out
            }),
    {
        let _ = self.outputs.vibe[i].raw();
        let mut level = self.vibe[i].step(dt, self.limits.vibe_slew_per_ms);
        let raw = level.raw();
        assert(raw as int * dt as int <= 9_999 * u32::MAX as int) by (nonlinear_arith)
            requires
                raw < 10_000,
                dt <= u32::MAX,
        ;
        assert(0 <= raw as int * dt as int) by (nonlinear_arith);
        let gained: u64 = raw as u64 * dt as u64;
        let lost: u64 = saturating_mul_u64(self.limits.heat.cool_per_ms, dt as u64);
        let acc = self.heat[i].saturating_add(gained).saturating_sub(lost);
        self.heat[i] = acc;
        if acc > self.limits.heat.limit {
            self.derated[i] = true;
        } else if acc < self.limits.heat.limit / 2 {
            self.derated[i] = false;
        }
        if self.derated[i] {
            level = level.min(self.limits.heat.derate);
        }
        level = level.min(self.limits.max_vibe);
        // Never rise faster than the slew ceiling, also when derating ends.
        let prev = self.outputs.vibe[i].raw();
        assert(0 <= self.limits.vibe_slew_per_ms as int * dt as int <= 65_535 * u32::MAX as int)
            by (nonlinear_arith)
            requires
                self.limits.vibe_slew_per_ms <= 65_535,
                dt <= u32::MAX,
        ;
        let cap: u64 = prev as u64 + self.limits.vibe_slew_per_ms as u64 * dt as u64;
        let r = if (level.raw() as u64) <= cap {
            level
        } else {
            Fraction::saturating(cap as u16)
        };
        let ghost ch = spec_vibe_channel(
            old(self)@.vibe[i as int],
            old(self)@.heat[i as int],
            old(self)@.derated[i as int],
            old(self)@.outputs.vibe[i as int],
            dt,
            old(self)@.limits,
        );
        assert(acc == ch.1);
        assert(self.derated[i as int] == ch.2);
        assert(r@ == ch.3);
        assert(self@.heat =~= old(self)@.heat.update(i as int, ch.1));
        assert(self@.derated =~= old(self)@.derated.update(i as int, ch.2));
        assert(self@.vibe =~= old(self)@.vibe.update(i as int, ch.0));
        r
    }
}

} // verus!
