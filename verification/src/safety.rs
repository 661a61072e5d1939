//! Laws of the governor over sequences of operations: a latched fault holds
//! through anything but a successful fault clear, and a silent host sees
//! vibration stop within the link timeout plus one full-scale ramp.

use crate::governor::{
    channel_output, lemma_coast_inv, lemma_handle_inv, lemma_kill_inv, lemma_prelude_inv,
    lemma_tick_inv, lemma_tick_laws, spec_command_valid, spec_dt, spec_handle, spec_inv,
    spec_link_down, spec_off, spec_validated, spec_report, spec_tick, spec_tick_prelude, spec_violation,
    CoastReason, Fault, GovernorModel, Sensors, State, LINEAR_CHANNELS, VIBE_CHANNELS,
};
use crate::motion::{lemma_step, spec_rest, spec_step};
use crate::tcode::{Command, DeviceCommand};
use vstd::prelude::*;

verus! {

/// An operation on the governor other than clearing a fault.
pub enum Operation {
    /// A command received at a time.
    Handle(Command, u64),
    /// A tick at a time with sensor readings.
    Tick(u64, Sensors),
    /// The transport lost the host.
    LinkDown,
    /// A fault reported by the firmware.
    Report(Fault),
}

/// The governor after one operation.
pub open spec fn spec_apply(g: GovernorModel, op: Operation) -> GovernorModel {
    match op {
        Operation::Handle(cmd, now) => spec_handle(g, cmd, now).0,
        Operation::Tick(now, s) => spec_tick(g, now, s).0,
        Operation::LinkDown => spec_link_down(g),
        Operation::Report(f) => spec_report(g, f),
    }
}

/// The governor after a sequence of operations, in order.
pub open spec fn spec_run(g: GovernorModel, ops: Seq<Operation>) -> GovernorModel
    decreases ops.len(),
{
    if ops.len() == 0 {
        g
    } else {
        spec_run(spec_apply(g, ops[0]), ops.drop_first())
    }
}

/// Every command in `ops` carries a valid magnitude, as every constructed
/// command does.
pub open spec fn spec_ops_valid(ops: Seq<Operation>) -> bool {
    forall|k: int|
        0 <= k < ops.len() ==> (#[trigger] ops[k] matches Operation::Handle(cmd, _)
            ==> spec_command_valid(cmd))
}

/// One operation keeps the governor's invariant.
pub proof fn lemma_apply_inv(g: GovernorModel, op: Operation)
    requires
        spec_inv(g),
        op matches Operation::Handle(cmd, _) ==> spec_command_valid(cmd),
    ensures
        spec_inv(spec_apply(g, op)),
{
    match op {
        Operation::Handle(cmd, now) => lemma_handle_inv(g, cmd, now),
        Operation::Tick(now, s) => lemma_tick_inv(g, now, s),
        Operation::LinkDown => {
            if !(g.state is Faulted) {
                lemma_coast_inv(g, CoastReason::LinkDown);
            }
        },
        Operation::Report(f) => {
            lemma_kill_inv(
                if g.state is Faulted {
                    g
                } else {
                    GovernorModel { state: State::Faulted(f), ..g }
                },
            );
        },
    }
}

/// The invariant holds after any sequence of commands, ticks, link losses
/// and fault reports, so every state the governor reaches keeps the laws of
/// a tick (`lemma_tick_laws`): the ceiling, the slew bound, the
/// driver-enable rule and the fault latch.
pub proof fn lemma_run_inv(g: GovernorModel, ops: Seq<Operation>)
    requires
        spec_inv(g),
        spec_ops_valid(ops),
    ensures
        spec_inv(spec_run(g, ops)),
    decreases ops.len(),
{
    if ops.len() > 0 {
        lemma_apply_inv(g, ops[0]);
        assert(spec_ops_valid(ops.drop_first())) by {
            assert forall|k: int| 0 <= k < ops.drop_first().len() implies (
            #[trigger] ops.drop_first()[k] matches Operation::Handle(cmd, _)
                ==> spec_command_valid(cmd)) by {
                assert(ops.drop_first()[k] == ops[k + 1]);
            }
        }
        lemma_run_inv(spec_apply(g, ops[0]), ops.drop_first());
    }
}

/// Faults latch: once a fault is latched, any sequence of commands, ticks
/// (whatever the sensors read), link losses and further reports leaves the
/// same fault latched and every output off. Only a successful
/// `clear_fault` ends it.
pub proof fn lemma_fault_latches(g: GovernorModel, ops: Seq<Operation>)
    requires
        spec_inv(g),
        g.state is Faulted,
        g.outputs == spec_off(),
        spec_ops_valid(ops),
    ensures
        spec_inv(spec_run(g, ops)),
        spec_run(g, ops).state == g.state,
        spec_run(g, ops).outputs == spec_off(),
    decreases ops.len(),
{
    if ops.len() > 0 {
        let op = ops[0];
        lemma_apply_inv(g, op);
        let next = spec_apply(g, op);
        match op {
            Operation::Handle(cmd, now) => {},
            Operation::Tick(now, s) => {
                lemma_tick_laws(g, now, s);
                lemma_tick_inv(g, now, s);
            },
            Operation::LinkDown => {},
            Operation::Report(f) => {},
        }
        assert(spec_ops_valid(ops.drop_first())) by {
            assert forall|k: int| 0 <= k < ops.drop_first().len() implies (
            #[trigger] ops.drop_first()[k] matches Operation::Handle(cmd, _)
                ==> spec_command_valid(cmd)) by {
                assert(ops.drop_first()[k] == ops[k + 1]);
            }
        }
        lemma_fault_latches(next, ops.drop_first());
    }
}

/// Tick times that are strictly increasing, start after `t`, and leave no
/// gap (from `t` to the first either) longer than `max_tick`.
pub open spec fn spec_ticks_regular(t: u64, times: Seq<u64>, max_tick: u32) -> bool {
    forall|k: int|
        0 <= k < times.len() ==> (if k == 0 {
            t as int
        } else {
            times[k - 1] as int
        }) < #[trigger] times[k] <= (if k == 0 {
            t as int
        } else {
            times[k - 1] as int
        }) + max_tick
}

/// The governor after ticks at `times` with `readings`, in order, and no
/// other operation.
pub open spec fn spec_run_ticks(g: GovernorModel, times: Seq<u64>, readings: Seq<Sensors>) -> GovernorModel
    decreases times.len(),
{
    if times.len() == 0 {
        g
    } else {
        spec_run_ticks(spec_tick(g, times[0], readings[0]).0, times.drop_first(), readings.drop_first())
    }
}

pub open spec fn max_int(a: int, b: int) -> int {
    if a >= b {
        a
    } else {
        b
    }
}

proof fn lemma_regular_tail(t: u64, times: Seq<u64>, max_tick: u32)
    requires
        spec_ticks_regular(t, times, max_tick),
        times.len() > 0,
    ensures
        spec_ticks_regular(times[0], times.drop_first(), max_tick),
        t < times[0] <= t + max_tick,
        times[0] <= times.last(),
    decreases times.len(),
{
    assert(t < times[0] <= t + max_tick);
    let rest = times.drop_first();
    assert forall|k: int| 0 <= k < rest.len() implies (if k == 0 {
        times[0] as int
    } else {
        rest[k - 1] as int
    }) < #[trigger] rest[k] <= (if k == 0 {
        times[0] as int
    } else {
        rest[k - 1] as int
    }) + max_tick by {
        assert(rest[k] == times[k + 1]);
        assert((if k + 1 == 0 { t as int } else { times[k] as int }) < times[k + 1]);
    }
    if rest.len() > 0 {
        lemma_regular_tail(times[0], rest, max_tick);
        assert(rest.last() == times.last());
    }
}

/// One tick on a governor that is not following the host (idle, coasting or
/// faulted), `dt` after the previous one: it stays that way and each
/// vibration setpoint drops by the slew ceiling times `dt`, down to zero.
proof fn lemma_quiet_tick(g: GovernorModel, t: u64, now: u64, s: Sensors, c: int)
    requires
        spec_inv(g),
        g.state != State::Active,
        g.last_tick_ms == Some(t),
        t < now <= t + g.limits.max_tick_ms,
        0 <= c,
        forall|i: int| 0 <= i < VIBE_CHANNELS ==> #[trigger] g.vibe[i].current <= c,
    ensures
        ({
            let n = spec_tick(g, now, s).0;
            &&& spec_inv(n)
            &&& n.state != State::Active
            &&& n.last_tick_ms == Some(now)
            &&& n.limits == g.limits
            &&& n.last_command_ms == g.last_command_ms
            &&& forall|i: int|
                0 <= i < VIBE_CHANNELS ==> #[trigger] n.vibe[i].current <= max_int(
                    0,
                    c - g.limits.vibe_slew_per_ms as int * (now - t),
                )
        }),
{
    lemma_tick_inv(g, now, s);
    lemma_prelude_inv(g, now, s);
    let dt = spec_dt(g, now);
    assert(dt as int == now - t);
    let g3 = spec_tick_prelude(g, now, s);
    let n = spec_tick(g, now, s).0;
    let slew = g.limits.vibe_slew_per_ms;
    assert(0 <= slew as int * dt as int) by (nonlinear_arith);
    if !(g3.state is Faulted) {
        assert forall|i: int| 0 <= i < VIBE_CHANNELS implies #[trigger] n.vibe[i].current
            <= max_int(0, c - slew as int * (now - t)) by {
            assert(g3.vibe[i] == g.vibe[i]);
            assert(g.vibe[i].target == 0 && g.vibe[i].remaining_ms == 0 && g.vibe[i].rate_per_s
                == 0) by {
                if g.state is Idle {
                    assert(g.vibe[i] == spec_rest(0));
                }
            }
            lemma_step(g.vibe[i], dt, slew);
        }
    } else {
        assert forall|i: int| 0 <= i < VIBE_CHANNELS implies #[trigger] n.vibe[i].current
            <= max_int(0, c - slew as int * (now - t)) by {
            assert(n.vibe[i] == spec_rest(0));
        }
    }
}

/// Ticks on a governor that is not following the host bring every
/// vibration setpoint down by the slew ceiling times the elapsed time.
proof fn lemma_quiet_ramp(g: GovernorModel, t: u64, times: Seq<u64>, readings: Seq<Sensors>, c: int)
    requires
        spec_inv(g),
        g.state != State::Active,
        g.last_tick_ms == Some(t),
        spec_ticks_regular(t, times, g.limits.max_tick_ms),
        readings.len() == times.len(),
        0 <= c,
        forall|i: int| 0 <= i < VIBE_CHANNELS ==> #[trigger] g.vibe[i].current <= c,
    ensures
        ({
            let r = spec_run_ticks(g, times, readings);
            let end = if times.len() == 0 {
                t as int
            } else {
                times.last() as int
            };
            &&& spec_inv(r)
            &&& forall|i: int|
                0 <= i < VIBE_CHANNELS ==> #[trigger] r.vibe[i].current <= max_int(
                    0,
                    c - g.limits.vibe_slew_per_ms as int * (end - t),
                )
        }),
    decreases times.len(),
{
    if times.len() > 0 {
        lemma_regular_tail(t, times, g.limits.max_tick_ms);
        let now = times[0];
        lemma_quiet_tick(g, t, now, readings[0], c);
        let n = spec_tick(g, now, readings[0]).0;
        let slew = g.limits.vibe_slew_per_ms as int;
        let c1 = max_int(0, c - slew * (now - t));
        lemma_quiet_ramp(n, now, times.drop_first(), readings.drop_first(), c1);
        let end = times.last() as int;
        let rest_end = if times.drop_first().len() == 0 {
            now as int
        } else {
            times.drop_first().last() as int
        };
        assert(rest_end == end);
        assert(slew * (end - t) == slew * (now - t) + slew * (end - now)) by (nonlinear_arith);
        assert(0 <= slew * (end - now)) by (nonlinear_arith)
            requires
                slew >= 0,
                end >= now,
        ;
    }
}

proof fn lemma_ramp_long_enough(slew: int, d: int)
    requires
        slew >= 1,
        d >= 10_000int / slew + 1,
    ensures
        slew * d >= 10_000,
{
    assert(slew * (10_000int / slew + 1) > 10_000) by (nonlinear_arith)
        requires
            slew >= 1,
    ;
    assert(slew * d >= slew * (10_000int / slew + 1)) by (nonlinear_arith)
        requires
            slew >= 1,
            d >= 10_000int / slew + 1,
    ;
}

/// With setpoints at zero, a valid governor outputs no vibration.
proof fn lemma_zero_setpoints_silent(r: GovernorModel)
    requires
        spec_inv(r),
        forall|i: int| 0 <= i < VIBE_CHANNELS ==> #[trigger] r.vibe[i].current <= 0,
    ensures
        forall|i: int| 0 <= i < VIBE_CHANNELS ==> #[trigger] r.outputs.vibe[i] == 0,
{
    assert forall|i: int| 0 <= i < VIBE_CHANNELS implies #[trigger] r.outputs.vibe[i] == 0 by {
        assert(r.outputs.vibe[i] <= channel_output(r.vibe[i].current, r.derated[i], r.limits));
    }
}

/// Link watchdog: if the host sends nothing, every vibration output is zero
/// once `link_timeout_ms + SCALE / vibe_slew_per_ms` ms (plus one tick
/// period of detection latency, plus one ms of rounding) have passed since
/// the later of the last command and the last tick, provided ticks keep
/// coming at least every `max_tick_ms` — whatever the sensors read.
pub proof fn lemma_silence_stops_vibration(
    g: GovernorModel,
    t: u64,
    times: Seq<u64>,
    readings: Seq<Sensors>,
)
    requires
        spec_inv(g),
        g.limits.vibe_slew_per_ms >= 1,
        g.last_tick_ms == Some(t),
        spec_ticks_regular(t, times, g.limits.max_tick_ms),
        readings.len() == times.len(),
        times.len() > 0,
        times.last() >= max_int(g.last_command_ms + g.limits.link_timeout_ms, t as int)
            + g.limits.max_tick_ms + 10_000int / (g.limits.vibe_slew_per_ms as int) + 1,
    ensures
        forall|i: int|
            0 <= i < VIBE_CHANNELS ==> #[trigger] spec_run_ticks(g, times, readings).outputs.vibe[i]
                == 0,
    decreases times.len(),
{
    let slew = g.limits.vibe_slew_per_ms as int;
    let deadline = g.last_command_ms + g.limits.link_timeout_ms;
    let last = times.last() as int;
    lemma_regular_tail(t, times, g.limits.max_tick_ms);
    if g.state != State::Active {
        lemma_quiet_ramp(g, t, times, readings, 9_999);
        lemma_ramp_long_enough(slew, last - t);
        lemma_zero_setpoints_silent(spec_run_ticks(g, times, readings));
    } else {
        let now = times[0];
        lemma_quiet_tick_or_active(g, t, now, readings[0]);
        let n = spec_tick(g, now, readings[0]).0;
        lemma_tick_inv(g, now, readings[0]);
        if n.state != State::Active {
            lemma_quiet_ramp(n, now, times.drop_first(), readings.drop_first(), 9_999);
            let rest_end = if times.drop_first().len() == 0 {
                now as int
            } else {
                times.drop_first().last() as int
            };
            assert(rest_end == last);
            lemma_ramp_long_enough(slew, last - now);
            lemma_zero_setpoints_silent(spec_run_ticks(n, times.drop_first(), readings.drop_first()));
        } else {
            assert(now <= deadline);
            assert(times.drop_first().len() > 0);
            assert(times.drop_first().last() == times.last());
            lemma_silence_stops_vibration(n, now, times.drop_first(), readings.drop_first());
        }
    }
}

/// A tick on a governor following the host keeps the command time, the
/// limits and the invariant, and stops following the host if the link
/// deadline has passed.
proof fn lemma_quiet_tick_or_active(g: GovernorModel, t: u64, now: u64, s: Sensors)
    requires
        spec_inv(g),
        g.state == State::Active,
        g.last_tick_ms == Some(t),
        t < now <= t + g.limits.max_tick_ms,
    ensures
        ({
            let n = spec_tick(g, now, s).0;
            &&& spec_inv(n)
            &&& n.last_tick_ms == Some(now)
            &&& n.limits == g.limits
            &&& n.last_command_ms == g.last_command_ms
            &&& now > g.last_command_ms + g.limits.link_timeout_ms ==> n.state != State::Active
            &&& forall|i: int| 0 <= i < VIBE_CHANNELS ==> #[trigger] n.vibe[i].current <= 9_999
        }),
{
    lemma_tick_inv(g, now, s);
    lemma_prelude_inv(g, now, s);
    let n = spec_tick(g, now, s).0;
    assert forall|i: int| 0 <= i < VIBE_CHANNELS implies #[trigger] n.vibe[i].current <= 9_999 by {
        assert(n.vibe[i].wf());
    }
}

proof fn lemma_regular_prefix(t: u64, times: Seq<u64>, max_tick: u32, n: int)
    requires
        spec_ticks_regular(t, times, max_tick),
        0 <= n <= times.len(),
    ensures
        spec_ticks_regular(t, times.take(n), max_tick),
{
    let p = times.take(n);
    assert forall|k: int| 0 <= k < p.len() implies (if k == 0 {
        t as int
    } else {
        p[k - 1] as int
    }) < #[trigger] p[k] <= (if k == 0 {
        t as int
    } else {
        p[k - 1] as int
    }) + max_tick by {
        assert(p[k] == times[k]);
        if k > 0 {
            assert(p[k - 1] == times[k - 1]);
        }
        assert((if k == 0 { t as int } else { times[k - 1] as int }) < times[k]);
    }
}

proof fn lemma_silent_at_end(g: GovernorModel, t0: u64, times: Seq<u64>, readings: Seq<Sensors>)
    requires
        spec_inv(g),
        spec_validated(g.limits) is Ok,
        g.last_command_ms == t0,
        spec_ticks_regular(t0, times, g.limits.max_tick_ms),
        readings.len() == times.len(),
        times.len() > 0,
        times.last() >= t0 + g.limits.link_timeout_ms + 10_000int
            / (g.limits.vibe_slew_per_ms as int) + 2 * g.limits.max_tick_ms,
    ensures
        forall|i: int|
            0 <= i < VIBE_CHANNELS ==> #[trigger] spec_run_ticks(g, times, readings).outputs.vibe[i]
                == 0,
{
    let l = g.limits;
    lemma_regular_tail(t0, times, l.max_tick_ms);
    let t1 = times[0];
    assert(times.len() >= 2) by {
        if times.len() == 1 {
            assert(times.last() == t1);
        }
    }
    let g1 = spec_tick(g, t1, readings[0]).0;
    lemma_tick_inv(g, t1, readings[0]);
    lemma_prelude_inv(g, t1, readings[0]);
    assert(g1.last_tick_ms == Some(t1));
    assert(g1.last_command_ms == t0);
    assert(g1.limits == l);
    let rest = times.drop_first();
    let rest_readings = readings.drop_first();
    assert(rest.last() == times.last());
    assert(spec_run_ticks(g, times, readings) == spec_run_ticks(g1, rest, rest_readings));
    lemma_silence_stops_vibration(g1, t1, rest, rest_readings);
}

/// Link watchdog, from the host's last command: once the host has gone
/// quiet at `t0` and ticks come at least every `max_tick_ms` from then on,
/// every tick at or after `t0 + link_timeout_ms + SCALE / vibe_slew_per_ms +
/// 2 * max_tick_ms` has every vibration output at zero, whatever the
/// sensors read (for validated limits).
pub proof fn lemma_quiet_host_silences_vibration(
    g: GovernorModel,
    t0: u64,
    times: Seq<u64>,
    readings: Seq<Sensors>,
)
    requires
        spec_inv(g),
        spec_validated(g.limits) is Ok,
        g.last_command_ms == t0,
        spec_ticks_regular(t0, times, g.limits.max_tick_ms),
        readings.len() == times.len(),
    ensures
        forall|k: int, i: int|
            0 <= k < times.len() && times[k] >= t0 + g.limits.link_timeout_ms + 10_000int / (
            g.limits.vibe_slew_per_ms as int) + 2 * g.limits.max_tick_ms && 0 <= i < VIBE_CHANNELS
                ==> #[trigger] spec_run_ticks(g, times.take(k + 1), readings.take(k + 1)).outputs.vibe[i]
                == 0,
{
    assert forall|k: int, i: int|
        0 <= k < times.len() && times[k] >= t0 + g.limits.link_timeout_ms + 10_000int / (
        g.limits.vibe_slew_per_ms as int) + 2 * g.limits.max_tick_ms && 0 <= i < VIBE_CHANNELS
            implies #[trigger] spec_run_ticks(g, times.take(k + 1), readings.take(k + 1)).outputs.vibe[i]
            == 0 by {
        lemma_regular_prefix(t0, times, g.limits.max_tick_ms, k + 1);
        assert(times.take(k + 1).last() == times[k]);
        lemma_silent_at_end(g, t0, times.take(k + 1), readings.take(k + 1));
    }
}

proof fn lemma_ticks_keep_link(g: GovernorModel, t: u64, times: Seq<u64>, readings: Seq<Sensors>)
    requires
        g.last_command_ms == t,
        g.state != State::Coasting(CoastReason::LinkTimeout),
        readings.len() == times.len(),
        forall|k: int| 0 <= k < times.len() ==> #[trigger] times[k] <= t + g.limits.link_timeout_ms,
    ensures
        spec_run_ticks(g, times, readings).state != State::Coasting(CoastReason::LinkTimeout),
        spec_run_ticks(g, times, readings).last_command_ms == t,
        spec_run_ticks(g, times, readings).limits == g.limits,
    decreases times.len(),
{
    if times.len() > 0 {
        let now = times[0];
        assert(now <= t + g.limits.link_timeout_ms);
        let next = spec_tick(g, now, readings[0]).0;
        let rest = times.drop_first();
        assert forall|k: int| 0 <= k < rest.len() implies #[trigger] rest[k] <= t
            + g.limits.link_timeout_ms by {
            assert(rest[k] == times[k + 1]);
        }
        lemma_ticks_keep_link(next, t, rest, readings.drop_first());
    }
}

/// Every valid token restarts the link watchdog: after any command handled
/// at `t` by an active governor, no tick at or before `t + link_timeout_ms`
/// coasts it on a link timeout, whatever the sensors read.
pub proof fn lemma_token_holds_watchdog(
    g: GovernorModel,
    cmd: Command,
    t: u64,
    times: Seq<u64>,
    readings: Seq<Sensors>,
)
    requires
        g.state == State::Active,
        readings.len() == times.len(),
        forall|k: int| 0 <= k < times.len() ==> #[trigger] times[k] <= t + g.limits.link_timeout_ms,
    ensures
        forall|k: int|
            0 <= k <= times.len() ==> #[trigger] spec_run_ticks(
                spec_handle(g, cmd, t).0,
                times.take(k),
                readings.take(k),
            ).state != State::Coasting(CoastReason::LinkTimeout),
{
    let h = spec_handle(g, cmd, t).0;
    assert(h.last_command_ms == t);
    assert(h.state != State::Coasting(CoastReason::LinkTimeout));
    assert forall|k: int| 0 <= k <= times.len() implies #[trigger] spec_run_ticks(
        h,
        times.take(k),
        readings.take(k),
    ).state != State::Coasting(CoastReason::LinkTimeout) by {
        assert forall|j: int| 0 <= j < times.take(k).len() implies #[trigger] times.take(k)[j]
            <= t + h.limits.link_timeout_ms by {
            assert(times.take(k)[j] == times[j]);
        }
        lemma_ticks_keep_link(h, t, times.take(k), readings.take(k));
    }
}

/// Every stroke planner rests where it is: target on the setpoint, no timed
/// move.
pub open spec fn stroke_held(g: GovernorModel) -> bool {
    forall|j: int|
        0 <= j < LINEAR_CHANNELS ==> (#[trigger] g.linear[j]).target == g.linear[j].current
            && g.linear[j].remaining_ms == 0 && g.linear[j].rate_per_s == 0
}

proof fn lemma_held_stroke_run(c: GovernorModel, times: Seq<u64>, readings: Seq<Sensors>)
    requires
        spec_inv(c),
        c.state is Coasting,
        stroke_held(c),
        readings.len() == times.len(),
        forall|k: int| 0 <= k < readings.len() ==> spec_violation(#[trigger] readings[k], c.limits) is None,
    ensures
        ({
            let r = spec_run_ticks(c, times, readings);
            &&& spec_inv(r)
            &&& r.state is Coasting
            &&& stroke_held(r)
            &&& r.limits == c.limits
            &&& forall|j: int| 0 <= j < LINEAR_CHANNELS ==> (#[trigger] r.linear[j]).current
                == c.linear[j].current
        }),
    decreases times.len(),
{
    if times.len() > 0 {
        let now = times[0];
        let s = readings[0];
        lemma_tick_inv(c, now, s);
        lemma_prelude_inv(c, now, s);
        let t = spec_tick(c, now, s).0;
        let dt = spec_dt(c, now);
        let g3 = spec_tick_prelude(c, now, s);
        assert(g3.linear == c.linear);
        assert forall|j: int| 0 <= j < LINEAR_CHANNELS implies #[trigger] t.linear[j] == c.linear[j] by {
            if dt > 0 {
                assert(t.linear[j] == spec_step(c.linear[j], dt, c.limits.linear_slew_per_ms));
            }
        }
        let rest_r = readings.drop_first();
        assert forall|k: int| 0 <= k < rest_r.len() implies spec_violation(
            #[trigger] rest_r[k],
            t.limits,
        ) is None by {
            assert(rest_r[k] == readings[k + 1]);
        }
        lemma_held_stroke_run(t, times.drop_first(), rest_r);
    }
}

/// Every stroke setpoint of `r`, its target and its output are where the
/// stroke of `g` stood.
pub open spec fn stroke_kept(r: GovernorModel, g: GovernorModel) -> bool {
    forall|j: int|
        0 <= j < LINEAR_CHANNELS ==> #[trigger] r.linear[j].current == g.linear[j].current
            && r.linear[j].target == g.linear[j].current && r.outputs.linear[j]
            == g.linear[j].current
}

/// Coasting holds the stroke where it is: after a stop command or a lost
/// link, every stroke planner rests on the setpoint it had, and through any
/// later ticks (while no fault is latched) the stroke setpoint, its target
/// and its output stay exactly there; only vibration ramps down.
pub proof fn lemma_coast_holds_stroke(
    g: GovernorModel,
    t: u64,
    times: Seq<u64>,
    readings: Seq<Sensors>,
)
    requires
        spec_inv(g),
        !(g.state is Faulted),
        readings.len() == times.len(),
        forall|k: int| 0 <= k < readings.len() ==> spec_violation(#[trigger] readings[k], g.limits) is None,
    ensures
        forall|k: int|
            0 <= k <= times.len() ==> stroke_kept(
                #[trigger] spec_run_ticks(
                    spec_handle(g, Command::Device(DeviceCommand::Stop), t).0,
                    times.take(k),
                    readings.take(k),
                ),
                g,
            ),
        forall|k: int|
            0 <= k <= times.len() ==> stroke_kept(
                #[trigger] spec_run_ticks(spec_link_down(g), times.take(k), readings.take(k)),
                g,
            ),
{
    let stop = spec_handle(g, Command::Device(DeviceCommand::Stop), t).0;
    let down = spec_link_down(g);
    lemma_coast_inv(GovernorModel { last_command_ms: t, ..g }, CoastReason::StopCommand);
    lemma_coast_inv(g, CoastReason::LinkDown);
    assert(stroke_held(stop));
    assert(stroke_held(down));
    assert forall|k: int| 0 <= k <= times.len() implies stroke_kept(
        #[trigger] spec_run_ticks(stop, times.take(k), readings.take(k)),
        g,
    ) by {
        assert forall|m: int| 0 <= m < readings.take(k).len() implies spec_violation(
            #[trigger] readings.take(k)[m],
            stop.limits,
        ) is None by {
            assert(readings.take(k)[m] == readings[m]);
        }
        lemma_held_stroke_run(stop, times.take(k), readings.take(k));
        let r = spec_run_ticks(stop, times.take(k), readings.take(k));
        assert forall|j: int| 0 <= j < LINEAR_CHANNELS implies #[trigger] r.linear[j].current
            == g.linear[j].current && r.linear[j].target == g.linear[j].current
            && r.outputs.linear[j] == g.linear[j].current by {
            assert(stop.linear[j].current == g.linear[j].current);
        }
    }
    assert forall|k: int| 0 <= k <= times.len() implies stroke_kept(
        #[trigger] spec_run_ticks(down, times.take(k), readings.take(k)),
        g,
    ) by {
        assert forall|m: int| 0 <= m < readings.take(k).len() implies spec_violation(
            #[trigger] readings.take(k)[m],
            down.limits,
        ) is None by {
            assert(readings.take(k)[m] == readings[m]);
        }
        lemma_held_stroke_run(down, times.take(k), readings.take(k));
        let r = spec_run_ticks(down, times.take(k), readings.take(k));
        assert forall|j: int| 0 <= j < LINEAR_CHANNELS implies #[trigger] r.linear[j].current
            == g.linear[j].current && r.linear[j].target == g.linear[j].current
            && r.outputs.linear[j] == g.linear[j].current by {
            assert(down.linear[j].current == g.linear[j].current);
        }
    }
}

} // verus!
