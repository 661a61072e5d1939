//! Per-axis motion planning under a hard slew ceiling.

use crate::tcode::Modifier;
use crate::value::Fraction;
use vstd::prelude::*;

verus! {

broadcast use {Fraction::lemma_from_raw_view, Fraction::lemma_view_from_raw};

/// The abstract state of an [`AxisPlanner`]: raw setpoint and target, the
/// milliseconds left in an `I` move with where it started and how long it
/// lasts, and the rate of an `S` move with the fraction of a unit it has
/// accumulated (in thousandths).
pub struct PlannerModel {
    pub current: u16,
    pub target: u16,
    pub remaining_ms: u32,
    pub rate_per_s: u32,
    pub origin: u16,
    pub duration_ms: u32,
    pub carry: u32,
}

impl PlannerModel {
    /// Setpoint, target and start are valid magnitudes, the time left in an
    /// `I` move is within its duration, and the carried fraction is below
    /// one unit.
    pub open spec fn wf(self) -> bool {
        &&& self.current < 10_000
        &&& self.target < 10_000
        &&& self.origin < 10_000
        &&& self.remaining_ms <= self.duration_ms
        &&& self.carry < 1000
    }

    /// Distance from setpoint to target, in raw units.
    pub open spec fn distance(self) -> int {
        if self.current >= self.target {
            self.current - self.target
        } else {
            self.target - self.current
        }
    }

    /// Length of the `I` move's straight line, from its start to the target.
    pub open spec fn span(self) -> int {
        if self.origin >= self.target {
            self.origin - self.target
        } else {
            self.target - self.origin
        }
    }
}

/// `v` clamped to the `u32` range from above.
pub open spec fn sat_u32(v: int) -> int {
    if v > u32::MAX {
        u32::MAX as int
    } else {
        v
    }
}

pub open spec fn min_int(a: int, b: int) -> int {
    if a <= b {
        a
    } else {
        b
    }
}

/// `x / d`, rounded up.
pub open spec fn ceil_div(x: int, d: int) -> int {
    (x + d - 1) / d
}

/// Where the straight line of an `I` move lies, as a distance from the
/// target, with `left` of its `duration` milliseconds to go: the span times
/// the share of time left, rounded up (so the setpoint, rounded down from
/// the start, never runs ahead of the line).
pub open spec fn line_gap(span: int, duration: int, left: int) -> int {
    if left > 0 {
        ceil_div(span * left, duration)
    } else {
        0
    }
}

/// Milliseconds left in an `I` move after `dt` more.
pub open spec fn interval_left(s: PlannerModel, dt: u32) -> int {
    if s.remaining_ms >= dt {
        s.remaining_ms - dt
    } else {
        0
    }
}

/// The step a timing modifier asks for over `dt` milliseconds, before the
/// slew ceiling: an `I` move asks to reach its straight line at the end of
/// the step; an `S` move advances at its rate, carrying fractions of a unit
/// over to the next step; a move without modifier asks for the whole
/// distance.
pub open spec fn requested_step(s: PlannerModel, dt: u32) -> int {
    if s.remaining_ms > 0 {
        let gap = line_gap(s.span(), s.duration_ms as int, interval_left(s, dt));
        if s.distance() > gap {
            s.distance() - gap
        } else {
            0
        }
    } else if s.rate_per_s > 0 {
        (s.rate_per_s * dt + s.carry) / 1000
    } else {
        s.distance()
    }
}

/// The step actually taken: the requested step, capped by the ceiling
/// `max_step_per_ms * dt` and by the distance to the target.
pub open spec fn step_size(s: PlannerModel, dt: u32, max_step_per_ms: u16) -> int {
    min_int(min_int(requested_step(s, dt), sat_u32(max_step_per_ms * dt)), s.distance())
}

/// The planner after advancing `dt` milliseconds.
pub open spec fn spec_step(s: PlannerModel, dt: u32, max_step_per_ms: u16) -> PlannerModel {
    if dt == 0 {
        s
    } else if s.distance() == 0 {
        PlannerModel { remaining_ms: 0, ..s }
    } else {
        let step = step_size(s, dt, max_step_per_ms);
        PlannerModel {
            current: if s.target > s.current {
                (s.current + step) as u16
            } else {
                (s.current - step) as u16
            },
            remaining_ms: interval_left(s, dt) as u32,
            carry: if s.remaining_ms == 0 && s.rate_per_s > 0 {
                ((s.rate_per_s * dt + s.carry) % 1000) as u32
            } else {
                s.carry
            },
            ..s
        }
    }
}

proof fn lemma_ceil_div_facts(a: int, d: int, x: int, y: int)
    requires
        d > 0,
        a >= 0,
        0 <= x <= y <= d,
    ensures
        0 <= ceil_div(a * x, d) <= ceil_div(a * y, d) <= a,
        ceil_div(a * d, d) == a,
        ceil_div(a * x, d) == 0 ==> a == 0 || x == 0,
{
    assert(0 <= a * x <= a * y <= a * d) by (nonlinear_arith)
        requires
            a >= 0,
            0 <= x <= y <= d,
    ;
    assert((a * x + d - 1) / d <= (a * y + d - 1) / d) by (nonlinear_arith)
        requires
            a * x <= a * y,
            d > 0,
    ;
    assert((a * d + d - 1) / d == a) by (nonlinear_arith)
        requires
            d > 0,
            a >= 0,
    ;
    assert((a * y + d - 1) / d <= (a * d + d - 1) / d) by (nonlinear_arith)
        requires
            a * y <= a * d,
            d > 0,
    ;
    assert(0 <= (a * x + d - 1) / d) by (nonlinear_arith)
        requires
            a * x >= 0,
            d > 0,
    ;
    if a > 0 && x > 0 {
        assert(a * x >= 1) by (nonlinear_arith)
            requires
                a > 0,
                x > 0,
        ;
        assert((a * x + d - 1) / d >= 1) by (nonlinear_arith)
            requires
                a * x >= 1,
                d > 0,
        ;
    }
}

/// What a step does: the setpoint moves toward the target without passing
/// it, by at most the ceiling `max_step_per_ms * dt`; the target, speed and
/// `I` move's line are kept, and the time left in an `I` move only shrinks.
/// A move without modifier covers the ceiling each step until it arrives.
pub proof fn lemma_step(s: PlannerModel, dt: u32, max_step_per_ms: u16)
    requires
        s.wf(),
    ensures
        ({
            let r = spec_step(s, dt, max_step_per_ms);
            &&& r.wf()
            &&& r.target == s.target
            &&& r.rate_per_s == s.rate_per_s
            &&& r.origin == s.origin
            &&& r.duration_ms == s.duration_ms
            &&& r.remaining_ms <= s.remaining_ms
            &&& r.distance() <= s.distance()
            &&& (s.current <= s.target ==> s.current <= r.current <= s.target)
            &&& (s.target <= s.current ==> s.target <= r.current <= s.current)
            &&& r.current - s.current <= max_step_per_ms as int * dt as int
            &&& s.current - r.current <= max_step_per_ms as int * dt as int
            &&& (s.remaining_ms == 0 && s.rate_per_s == 0 ==> r.distance() == (if s.distance()
                >= sat_u32(max_step_per_ms as int * dt as int) {
                s.distance() - sat_u32(max_step_per_ms as int * dt as int)
            } else {
                0
            }))
        }),
{
    let ceiling = sat_u32(max_step_per_ms as int * dt as int);
    assert(0 <= max_step_per_ms as int * dt as int) by (nonlinear_arith);
    assert(ceiling <= max_step_per_ms as int * dt as int);
    if dt == 0 {
        assert(max_step_per_ms as int * dt as int == 0);
    }
    if s.remaining_ms > 0 {
        lemma_ceil_div_facts(s.span(), s.duration_ms as int, interval_left(s, dt), s.remaining_ms as int);
    }
    if s.rate_per_s > 0 {
        assert(0 <= s.rate_per_s * dt) by (nonlinear_arith);
    }
}

/// The planner after a step of each of `dts` milliseconds, in order.
pub open spec fn spec_steps(s: PlannerModel, dts: Seq<u32>, max_step_per_ms: u16) -> PlannerModel
    decreases dts.len(),
{
    if dts.len() == 0 {
        s
    } else {
        spec_steps(spec_step(s, dts[0], max_step_per_ms), dts.drop_first(), max_step_per_ms)
    }
}

/// The total of `dts`, in milliseconds.
pub open spec fn total_ms(dts: Seq<u32>) -> int
    decreases dts.len(),
{
    if dts.len() == 0 {
        0
    } else {
        dts[0] + total_ms(dts.drop_first())
    }
}

/// Over `dt` milliseconds the straight line of an `I` move advances by at
/// most `m * dt` when its span is at most `m` times its duration.
proof fn lemma_line_advance(a: int, d: int, rem: int, rem2: int, dt: int, m: int)
    requires
        d > 0,
        a >= 0,
        m >= 0,
        0 <= rem2 <= rem <= d,
        rem - rem2 <= dt,
        a <= m * d,
    ensures
        ceil_div(a * rem, d) - ceil_div(a * rem2, d) <= m * dt,
{
    let x = a * rem + d - 1;
    let y = a * rem2 + d - 1;
    vstd::arithmetic::div_mod::lemma_fundamental_div_mod(x, d);
    vstd::arithmetic::div_mod::lemma_fundamental_div_mod(y, d);
    assert(a * rem - a * rem2 <= a * dt) by (nonlinear_arith)
        requires
            a >= 0,
            rem - rem2 <= dt,
    ;
    assert(a * dt <= m * d * dt) by (nonlinear_arith)
        requires
            a <= m * d,
            dt >= 0,
    ;
    assert(a * rem2 >= 0) by (nonlinear_arith)
        requires
            a >= 0,
            rem2 >= 0,
    ;
    assert(x / d - y / d <= m * dt) by (nonlinear_arith)
        requires
            x == d * (x / d) + x % d,
            y == d * (y / d) + y % d,
            0 <= x % d < d,
            0 <= y % d < d,
            x - y <= m * d * dt,
            d > 0,
    ;
}

proof fn lemma_interval_from(s: PlannerModel, dts: Seq<u32>, max_step_per_ms: u16)
    requires
        s.wf(),
        s.duration_ms > 0,
        s.distance() == line_gap(s.span(), s.duration_ms as int, s.remaining_ms as int),
        s.origin <= s.target ==> s.origin <= s.current <= s.target,
        s.target <= s.origin ==> s.target <= s.current <= s.origin,
        forall|k: int|
            0 <= k < dts.len() && #[trigger] dts[k] > 0 ==> s.span() <= max_step_per_ms as int
                * dts[k] as int || s.span() <= max_step_per_ms as int * s.duration_ms as int,
    ensures
        ({
            let r = spec_steps(s, dts, max_step_per_ms);
            &&& r.distance() == line_gap(
                s.span(),
                s.duration_ms as int,
                s.remaining_ms - total_ms(dts),
            )
            &&& r.target == s.target
            &&& (s.origin <= s.target ==> s.origin <= r.current <= s.target)
            &&& (s.target <= s.origin ==> s.target <= r.current <= s.origin)
        }),
    decreases dts.len(),
{
    let a = s.span();
    let d = s.duration_ms as int;
    if dts.len() == 0 {
        if s.remaining_ms > 0 {
            lemma_ceil_div_facts(a, d, s.remaining_ms as int, s.remaining_ms as int);
        }
    } else {
        let dt = dts[0];
        let rest = dts.drop_first();
        let next = spec_step(s, dt, max_step_per_ms);
        lemma_step(s, dt, max_step_per_ms);
        assert(total_ms(dts) == dt + total_ms(rest));
        assert(total_ms(rest) >= 0) by {
            lemma_total_ms_nonneg(rest);
        }
        if s.remaining_ms > 0 {
            lemma_ceil_div_facts(a, d, interval_left(s, dt), s.remaining_ms as int);
            lemma_ceil_div_facts(a, d, s.remaining_ms as int, s.remaining_ms as int);
        }
        if dt > 0 && s.distance() > 0 {
            assert(s.remaining_ms > 0);
            assert(0 <= max_step_per_ms as int * dt as int) by (nonlinear_arith);
            assert(dts[0] == dt);
            if a <= max_step_per_ms as int * dt as int {
                assert(sat_u32(max_step_per_ms as int * dt as int) >= a);
            } else {
                lemma_line_advance(
                    a,
                    d,
                    s.remaining_ms as int,
                    interval_left(s, dt),
                    dt as int,
                    max_step_per_ms as int,
                );
                assert(ceil_div(a * 0, d) == 0) by {
                    assert(a * 0 == 0);
                    assert((d - 1) / d == 0) by (nonlinear_arith)
                        requires
                            d > 0,
                    ;
                }
                assert(line_gap(a, d, interval_left(s, dt)) == ceil_div(a * interval_left(s, dt), d));
                assert(s.distance() == ceil_div(a * s.remaining_ms, d));
                assert(requested_step(s, dt) <= max_step_per_ms as int * dt as int);
                assert(requested_step(s, dt) <= s.distance());
            }
            assert(step_size(s, dt, max_step_per_ms) == requested_step(s, dt));
            assert(next.distance() == line_gap(a, d, interval_left(s, dt)));
        }
        let l0 = s.remaining_ms - total_ms(dts);
        let l1 = next.remaining_ms - total_ms(rest);
        if dt > 0 && s.distance() == 0 && s.remaining_ms > 0 {
            assert(a == 0);
            assert(a * l0 == 0 && a * l1 == 0) by (nonlinear_arith)
                requires
                    a == 0,
            ;
            assert(ceil_div(0, d) == 0);
        }
        assert forall|k: int|
            0 <= k < rest.len() && #[trigger] rest[k] > 0 implies next.span() <= max_step_per_ms
                as int * rest[k] as int || next.span() <= max_step_per_ms as int
                * next.duration_ms as int by {
            assert(rest[k] == dts[k + 1]);
        }
        lemma_interval_from(next, rest, max_step_per_ms);
        assert(line_gap(a, d, l1) == line_gap(a, d, l0));
    }
}

/// An `I` move arrives after exactly its interval whenever the slew ceiling
/// allows it (its span is at most `max_step_per_ms * millis`): after steps
/// totalling `e` of its `millis` milliseconds the setpoint lies between the
/// start and the target at `ceil(span * (millis - e) / millis)` from the
/// target, on it once `e >= millis` and not before.
pub proof fn lemma_interval_arrives_on_time(
    p: PlannerModel,
    target: u16,
    millis: u32,
    dts: Seq<u32>,
    max_step_per_ms: u16,
)
    requires
        p.wf(),
        target < 10_000,
        millis > 0,
        (if p.current >= target {
            p.current - target
        } else {
            target - p.current
        }) <= max_step_per_ms as int * millis as int,
    ensures
        ({
            let span = if p.current >= target {
                p.current - target
            } else {
                target - p.current
            };
            let e = total_ms(dts);
            let r = spec_steps(
                spec_command(p, target, Modifier::Interval { millis }),
                dts,
                max_step_per_ms,
            );
            &&& e < millis ==> r.distance() == (span * (millis - e) + millis - 1) / (millis as int)
            &&& e >= millis ==> r.current == target
            &&& (p.current <= target ==> p.current <= r.current <= target)
            &&& (target <= p.current ==> target <= r.current <= p.current)
        }),
{
    let s = spec_command(p, target, Modifier::Interval { millis });
    lemma_ceil_div_facts(s.span(), millis as int, millis as int, millis as int);
    lemma_interval_from(s, dts, max_step_per_ms);
}

proof fn lemma_total_ms_nonneg(dts: Seq<u32>)
    ensures
        total_ms(dts) >= 0,
    decreases dts.len(),
{
    if dts.len() > 0 {
        lemma_total_ms_nonneg(dts.drop_first());
    }
}

/// An `I` move follows the straight line from where it started to its
/// target and lands on the target when its interval ends: after steps
/// totalling `e` of its `millis` milliseconds, the setpoint lies between the
/// start and the target at `ceil(span * (millis - e) / millis)` from the
/// target (on it once `e >= millis`), provided the slew ceiling of every
/// step covers the whole span.
pub proof fn lemma_interval_follows_line(
    p: PlannerModel,
    target: u16,
    millis: u32,
    dts: Seq<u32>,
    max_step_per_ms: u16,
)
    requires
        p.wf(),
        target < 10_000,
        millis > 0,
        forall|k: int|
            0 <= k < dts.len() && #[trigger] dts[k] > 0 ==> (if p.current >= target {
                p.current - target
            } else {
                target - p.current
            }) <= max_step_per_ms as int * dts[k] as int,
    ensures
        ({
            let s = spec_command(p, target, Modifier::Interval { millis });
            let r = spec_steps(s, dts, max_step_per_ms);
            &&& r.distance() == line_gap(s.span(), millis as int, millis - total_ms(dts))
            &&& (p.current <= target ==> p.current <= r.current <= target)
            &&& (target <= p.current ==> target <= r.current <= p.current)
        }),
{
    let s = spec_command(p, target, Modifier::Interval { millis });
    lemma_ceil_div_facts(s.span(), millis as int, millis as int, millis as int);
    lemma_interval_from(s, dts, max_step_per_ms);
}

proof fn lemma_interval_behind_from(s: PlannerModel, dts: Seq<u32>, max_step_per_ms: u16)
    requires
        s.wf(),
        s.duration_ms > 0,
        s.remaining_ms > 0 ==> s.distance() >= ceil_div(
            s.span() * s.remaining_ms,
            s.duration_ms as int,
        ),
        s.origin <= s.target ==> s.origin <= s.current <= s.target,
        s.target <= s.origin ==> s.target <= s.current <= s.origin,
    ensures
        ({
            let r = spec_steps(s, dts, max_step_per_ms);
            let left = s.remaining_ms - total_ms(dts);
            &&& left > 0 ==> r.distance() >= (s.span() * left + s.duration_ms - 1)
                / (s.duration_ms as int)
            &&& (s.origin <= s.target ==> s.origin <= r.current <= s.target)
            &&& (s.target <= s.origin ==> s.target <= r.current <= s.origin)
        }),
    decreases dts.len(),
{
    let a = s.span();
    let d = s.duration_ms as int;
    if dts.len() > 0 {
        let dt = dts[0];
        let rest = dts.drop_first();
        let next = spec_step(s, dt, max_step_per_ms);
        lemma_step(s, dt, max_step_per_ms);
        lemma_total_ms_nonneg(rest);
        assert(total_ms(dts) == dt + total_ms(rest));
        if s.remaining_ms > 0 {
            lemma_ceil_div_facts(a, d, interval_left(s, dt), s.remaining_ms as int);
            lemma_ceil_div_facts(a, d, s.remaining_ms as int, s.remaining_ms as int);
        }
        if dt > 0 && s.distance() > 0 && s.remaining_ms > 0 {
            let gap = line_gap(a, d, interval_left(s, dt));
            let st = step_size(s, dt, max_step_per_ms);
            assert(st <= requested_step(s, dt));
            assert(0 <= st <= s.distance());
            assert(next.distance() == s.distance() - st);
            if s.distance() > gap {
                assert(requested_step(s, dt) == s.distance() - gap);
            } else {
                assert(st == 0);
            }
            assert(next.distance() >= gap);
            assert(interval_left(s, dt) > 0 ==> gap == ceil_div(a * interval_left(s, dt), d));
        }
        lemma_interval_behind_from(next, rest, max_step_per_ms);
        let left = s.remaining_ms - total_ms(dts);
        if left > 0 {
            if dt > 0 && s.distance() == 0 {
                assert(a == 0);
                assert(a * left == 0) by (nonlinear_arith)
                    requires
                        a == 0,
                ;
                assert((d - 1) / d == 0);
            } else {
                assert(next.remaining_ms - total_ms(rest) == left);
            }
        }
    }
}

/// An `I` move never runs ahead of its straight line, whatever the slew
/// ceiling: after steps totalling `e` of its `millis` milliseconds, with
/// `e < millis`, the setpoint is still at least `ceil(span * (millis - e) /
/// millis)` from the target, and between where the move started and the
/// target. A low ceiling can only hold the move back, never speed it up.
pub proof fn lemma_interval_never_ahead(
    p: PlannerModel,
    target: u16,
    millis: u32,
    dts: Seq<u32>,
    max_step_per_ms: u16,
)
    requires
        p.wf(),
        target < 10_000,
        millis > 0,
        total_ms(dts) < millis,
    ensures
        ({
            let span = if p.current >= target {
                p.current - target
            } else {
                target - p.current
            };
            let r = spec_steps(
                spec_command(p, target, Modifier::Interval { millis }),
                dts,
                max_step_per_ms,
            );
            &&& r.distance() >= (span * (millis - total_ms(dts)) + millis - 1) / (millis as int)
            &&& (p.current <= target ==> p.current <= r.current <= target)
            &&& (target <= p.current ==> target <= r.current <= p.current)
        }),
{
    let s = spec_command(p, target, Modifier::Interval { millis });
    lemma_ceil_div_facts(s.span(), millis as int, millis as int, millis as int);
    lemma_interval_behind_from(s, dts, max_step_per_ms);
}

/// Carrying the remainder of a step's thousandths loses nothing: the units
/// of one step plus those of the rest, with the carry passed on, are the
/// units of the whole.
proof fn lemma_carry_split(rate: int, dt: int, e: int, c: int)
    requires
        rate > 0,
        dt >= 0,
        e >= 0,
        0 <= c < 1000,
    ensures
        rate * dt + c >= 0,
        rate * e >= 0,
        rate * (dt + e) + c == (rate * dt + c) + rate * e,
        (rate * dt + c) / 1000 + (rate * e + (rate * dt + c) % 1000) / 1000 == (rate * (dt + e) + c)
            / 1000,
        (rate * dt + c) / 1000 <= (rate * (dt + e) + c) / 1000,
        (rate * e + c) / 1000 >= c / 1000,
{
    assert(0 <= rate * dt) by (nonlinear_arith)
        requires
            rate > 0,
            dt >= 0,
    ;
    assert(0 <= rate * e) by (nonlinear_arith)
        requires
            rate > 0,
            e >= 0,
    ;
    assert(rate * (dt + e) == rate * dt + rate * e) by (nonlinear_arith);
    let x = rate * dt + c;
    let y = rate * e;
    vstd::arithmetic::div_mod::lemma_fundamental_div_mod(x, 1000);
    vstd::arithmetic::div_mod::lemma_hoist_over_denominator(x % 1000 + y, x / 1000, 1000);
    assert(x / 1000 + (y + x % 1000) / 1000 == (x + y) / 1000);
    assert(x / 1000 <= (x + y) / 1000);
    assert((y + c) / 1000 >= c / 1000);
}

#[verifier::spinoff_prover]
proof fn lemma_speed_from(s: PlannerModel, dts: Seq<u32>, max_step_per_ms: u16, bound: int)
    requires
        s.wf(),
        s.remaining_ms == 0,
        s.rate_per_s > 0,
        s.distance() <= bound,
        forall|k: int|
            0 <= k < dts.len() && #[trigger] dts[k] > 0 ==> bound <= max_step_per_ms as int
                * dts[k] as int,
    ensures
        ({
            let r = spec_steps(s, dts, max_step_per_ms);
            let moved = (s.rate_per_s * total_ms(dts) + s.carry) / 1000;
            &&& r.distance() == (if s.distance() > moved {
                s.distance() - moved
            } else {
                0
            })
            &&& r.target == s.target
            &&& (s.current <= s.target ==> s.current <= r.current <= s.target)
            &&& (s.target <= s.current ==> s.target <= r.current <= s.current)
        }),
    decreases dts.len(),
{
    let rate = s.rate_per_s as int;
    if dts.len() == 0 {
        assert(total_ms(dts) == 0);
        assert(s.rate_per_s * total_ms(dts) == 0);
        assert(0 <= s.carry / 1000 <= 0);
    } else {
        let dt = dts[0];
        let rest = dts.drop_first();
        let next = spec_step(s, dt, max_step_per_ms);
        lemma_step(s, dt, max_step_per_ms);
        lemma_total_ms_nonneg(rest);
        let e = total_ms(rest);
        assert(total_ms(dts) == dt + e);
        let x = rate * dt + s.carry;
        let y = rate * e;
        lemma_carry_split(rate, dt as int, e, s.carry as int);
        assert(s.rate_per_s * total_ms(dts) + s.carry == x + y);
        assert forall|k: int|
            0 <= k < rest.len() && #[trigger] rest[k] > 0 implies bound <= max_step_per_ms as int
                * rest[k] as int by {
            assert(rest[k] == dts[k + 1]);
        }
        lemma_speed_from(next, rest, max_step_per_ms, bound);
        let r = spec_steps(s, dts, max_step_per_ms);
        assert(r == spec_steps(next, rest, max_step_per_ms));
        if dt > 0 && s.distance() > 0 {
            assert(0 <= max_step_per_ms as int * dt as int) by (nonlinear_arith);
            assert(step_size(s, dt, max_step_per_ms) == min_int(x / 1000, s.distance()));
            assert(next.carry == x % 1000);
            assert(next.distance() == s.distance() - min_int(x / 1000, s.distance()));
            assert(next.rate_per_s * e + next.carry == y + x % 1000);
        } else if dt == 0 {
            assert(next == s);
            assert(x == s.carry);
        } else {
            assert(next.distance() == 0);
        }
        let moved = (s.rate_per_s * total_ms(dts) + s.carry) / 1000;
        assert(moved == (x + y) / 1000);
        assert(r.distance() == (if s.distance() > moved {
            s.distance() - moved
        } else {
            0
        }));
    }
}

/// An `S` move advances at its rate, carrying fractions of a unit from step
/// to step: after steps totalling `e` milliseconds it has moved
/// `floor(per_second * e / 1000)` raw units toward the target, or reached
/// it, provided the slew ceiling of every step covers the whole distance.
pub proof fn lemma_speed_keeps_rate(
    p: PlannerModel,
    target: u16,
    per_second: u32,
    dts: Seq<u32>,
    max_step_per_ms: u16,
)
    requires
        p.wf(),
        target < 10_000,
        per_second > 0,
        forall|k: int|
            0 <= k < dts.len() && #[trigger] dts[k] > 0 ==> (if p.current >= target {
                p.current - target
            } else {
                target - p.current
            }) <= max_step_per_ms as int * dts[k] as int,
    ensures
        ({
            let s = spec_command(p, target, Modifier::Speed { per_second });
            let r = spec_steps(s, dts, max_step_per_ms);
            let moved = (per_second * total_ms(dts)) / 1000;
            &&& r.distance() == (if s.distance() > moved {
                s.distance() - moved
            } else {
                0
            })
            &&& (p.current <= target ==> p.current <= r.current <= target)
            &&& (target <= p.current ==> target <= r.current <= p.current)
        }),
{
    let s = spec_command(p, target, Modifier::Speed { per_second });
    lemma_speed_from(s, dts, max_step_per_ms, s.distance());
}

/// The planner after accepting `target` with a timing modifier. Every
/// command starts its move from the current setpoint.
pub open spec fn spec_command(s: PlannerModel, target: u16, modifier: Modifier) -> PlannerModel {
    match modifier {
        Modifier::Immediate => PlannerModel {
            target,
            remaining_ms: 0,
            rate_per_s: 0,
            origin: s.current,
            duration_ms: 0,
            carry: 0,
            ..s
        },
        Modifier::Interval { millis } => PlannerModel {
            target,
            remaining_ms: millis,
            rate_per_s: 0,
            origin: s.current,
            duration_ms: millis,
            carry: 0,
            ..s
        },
        Modifier::Speed { per_second } => PlannerModel {
            target,
            remaining_ms: 0,
            rate_per_s: per_second,
            origin: s.current,
            duration_ms: 0,
            carry: 0,
            ..s
        },
    }
}

/// A planner resting at `value` with no timed move.
pub open spec fn spec_rest(value: u16) -> PlannerModel {
    PlannerModel {
        current: value,
        target: value,
        remaining_ms: 0,
        rate_per_s: 0,
        origin: value,
        duration_ms: 0,
        carry: 0,
    }
}

/// Tracks one axis's commanded target and interpolates the live setpoint
/// toward it.
///
/// The planner honours the TCode `I` (interval) and `S` (speed) modifiers but
/// never moves faster than the `max_step_per_ms` passed to [`Self::step`],
/// which is how the governor imposes a slew limit the host cannot override.
#[derive(Clone, Copy, Debug, PartialEq, Eq, Structural)]
pub struct AxisPlanner {
    current: Fraction,
    target: Fraction,
    /// Milliseconds left in an `I` move; 0 when not in a timed move.
    remaining_ms: u32,
    /// Raw units per second for an `S` move; 0 when unlimited.
    rate_per_s: u32,
    /// Setpoint at which the current move started.
    origin: Fraction,
    /// Length of the current `I` move in milliseconds.
    duration_ms: u32,
    /// Thousandths of a unit an `S` move has accumulated but not yet taken.
    carry: u32,
}

impl View for AxisPlanner {
    type V = PlannerModel;

    closed spec fn view(&self) -> PlannerModel {
        PlannerModel {
            current: self.current@,
            target: self.target@,
            remaining_ms: self.remaining_ms,
            rate_per_s: self.rate_per_s,
            origin: self.origin@,
            duration_ms: self.duration_ms,
            carry: self.carry,
        }
    }
}

/// `a * b`, clamped to `u32::MAX`.
fn saturating_mul_u32(a: u32, b: u32) -> (r: u32)
    ensures
        r as int == sat_u32(a as int * b as int),
{
    assert(0 <= a as int * b as int <= u32::MAX as int * u32::MAX as int) by (nonlinear_arith)
        requires
            a <= u32::MAX,
            b <= u32::MAX,
    ;
    let wide: u64 = a as u64 * b as u64;
    if wide > u32::MAX as u64 {
        u32::MAX
    } else {
        wide as u32
    }
}

impl AxisPlanner {
    /// The time left in an `I` move is within its duration, and the carried
    /// fraction of an `S` move is below one unit.
    #[verifier::type_invariant]
    spec fn timing_valid(self) -> bool {
        self.remaining_ms <= self.duration_ms && self.carry < 1000
    }

    /// A planner resting at `start`.
    pub fn new(start: Fraction) -> (r: Self)
        ensures
            r@ == spec_rest(start@),
            r@.wf(),
    {
        let _ = start.raw();
        Self {
            current: start,
            target: start,
            remaining_ms: 0,
            rate_per_s: 0,
            origin: start,
            duration_ms: 0,
            carry: 0,
        }
    }

    /// Live setpoint.
    pub fn current(&self) -> (r: Fraction)
        ensures
            r@ == self@.current,
            r@ < 10_000,
    {
        let _ = self.current.raw();
        self.current
    }

    /// Commanded target.
    pub fn target(&self) -> (r: Fraction)
        ensures
            r@ == self@.target,
            r@ < 10_000,
    {
        let _ = self.target.raw();
        self.target
    }

    /// Whether the setpoint has reached the target.
    pub fn is_settled(&self) -> (r: bool)
        ensures
            r == (self@.current == self@.target),
    {
        self.current.raw() == self.target.raw()
    }

    /// The planner's state is well formed.
    fn prove_wf(&self)
        ensures
            self@.wf(),
    {
        proof {
            use_type_invariant(self);
        }
        let _ = self.current.raw();
        let _ = self.target.raw();
        let _ = self.origin.raw();
    }

    /// Accept a new target with a TCode timing modifier.
    pub fn command(&mut self, target: Fraction, modifier: Modifier)
        ensures
            final(self)@ == spec_command(old(self)@, target@, modifier),
            final(self)@.wf(),
    {
        let (remaining_ms, duration_ms, rate_per_s) = match modifier {
            Modifier::Immediate => (0, 0, 0),
            Modifier::Interval { millis } => (millis, millis, 0),
            Modifier::Speed { per_second } => (0, 0, per_second),
        };
        *self = Self {
            current: self.current,
            target,
            remaining_ms,
            rate_per_s,
            origin: self.current,
            duration_ms,
            carry: 0,
        };
        self.prove_wf();
    }

    /// Jump both setpoint and target to `value` (used for hard stops).
    pub fn force(&mut self, value: Fraction)
        ensures
            final(self)@ == spec_rest(value@),
            final(self)@.wf(),
    {
        *self = Self::new(value);
    }

    /// Retarget without changing timing (used to steer toward safe).
    pub fn retarget(&mut self, target: Fraction)
        ensures
            final(self)@ == (PlannerModel { target: target@, ..old(self)@ }),
            final(self)@.wf(),
    {
        proof {
            use_type_invariant(&*self);
        }
        *self = Self { target, ..*self };
        self.prove_wf();
    }

    /// Advance by `dt_ms`, moving at most `max_step_per_ms * dt_ms` raw units.
    /// Returns the new setpoint.
    ///
    /// The setpoint never passes the target, never gets farther from it, and
    /// never moves by more than the ceiling `max_step_per_ms * dt_ms`.
    pub fn step(&mut self, dt_ms: u32, max_step_per_ms: u16) -> (r: Fraction)
        ensures
            final(self)@ == spec_step(old(self)@, dt_ms, max_step_per_ms),
            final(self)@.wf(),
            r@ == final(self)@.current,
            final(self)@.target == old(self)@.target,
            final(self)@.distance() <= old(self)@.distance(),
            old(self)@.current <= old(self)@.target ==> old(self)@.current <= final(self)@.current
                <= old(self)@.target,
            old(self)@.target <= old(self)@.current ==> old(self)@.target <= final(self)@.current
                <= old(self)@.current,
            final(self)@.current - old(self)@.current <= max_step_per_ms as int * dt_ms as int,
            old(self)@.current - final(self)@.current <= max_step_per_ms as int * dt_ms as int,
    {
        self.prove_wf();
        proof {
            use_type_invariant(&*self);
            lemma_step(self@, dt_ms, max_step_per_ms);
        }
        if dt_ms == 0 {
            return self.current;
        }
        let distance: u32 = self.current.abs_diff(self.target) as u32;
        if distance == 0 {
            *self = Self { remaining_ms: 0, ..*self };
            return self.current;
        }
        let left: u32 = if self.remaining_ms >= dt_ms {
            self.remaining_ms - dt_ms
        } else {
            0
        };
        let mut carry: u32 = self.carry;
        // Requested step from the modifier, before the safety ceiling.
        let requested: u64 = if self.remaining_ms > 0 {
            // Reach the straight line from the start to the target, which
            // lands on the target exactly when the interval ends.
            let span: u64 = self.origin.abs_diff(self.target) as u64;
            let duration: u64 = self.duration_ms as u64;
            assert(span * left as int <= 10_000 * u32::MAX as int) by (nonlinear_arith)
                requires
                    span < 10_000,
                    left <= u32::MAX,
            ;
            assert(0 <= span * left as int) by (nonlinear_arith);
            let gap: u64 = if left > 0 {
                (span * left as u64 + duration - 1) / duration
            } else {
                0
            };
            if distance as u64 > gap {
                distance as u64 - gap
            } else {
                0
            }
        } else if self.rate_per_s > 0 {
            assert(0 <= self.rate_per_s as int * dt_ms as int <= u32::MAX as int * u32::MAX as int)
                by (nonlinear_arith)
                requires
                    self.rate_per_s <= u32::MAX,
                    dt_ms <= u32::MAX,
            ;
            let units: u64 = self.rate_per_s as u64 * dt_ms as u64 + self.carry as u64;
            carry = (units % 1000) as u32;
            units / 1000
        } else {
            distance as u64
        };
        // Hard ceiling from the governor.
        let ceiling = saturating_mul_u32(max_step_per_ms as u32, dt_ms);
        let mut step: u64 = if requested < ceiling as u64 {
            requested
        } else {
            ceiling as u64
        };
        if (distance as u64) < step {
            step = distance as u64;
        }
        assert(step as int == step_size(old(self)@, dt_ms, max_step_per_ms));
        let step16: u16 = step as u16;
        let current = if self.target.raw() > self.current.raw() {
            self.current.saturating_add(step16)
        } else {
            self.current.saturating_sub(step16)
        };
        *self = Self { current, remaining_ms: left, carry, ..*self };
        self.current
    }
}

impl Default for AxisPlanner {
    fn default() -> (r: Self)
        ensures
            r@ == spec_rest(0),
    {
        Self::new(Fraction::zero())
    }
}

} // verus!
