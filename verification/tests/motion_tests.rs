use teledildo_core::motion::AxisPlanner;
use teledildo_core::tcode::Modifier;
use teledildo_core::value::Fraction;

fn f(raw: u16) -> Fraction {
    Fraction::new(raw).unwrap()
}

#[test]
fn immediate_move_is_slew_limited() {
    let mut p = AxisPlanner::new(Fraction::zero());
    p.command(f(9999), Modifier::Immediate);
    assert_eq!(p.step(1, 20), f(20));
    assert_eq!(p.step(10, 20), f(220));
    // Large dt saturates onto the target, never beyond.
    assert_eq!(p.step(10_000, 20), f(9999));
    assert!(p.is_settled());
}

#[test]
fn interval_move_lands_on_time() {
    let mut p = AxisPlanner::new(Fraction::zero());
    p.command(f(1000), Modifier::Interval { millis: 100 });
    for _ in 0..100 {
        p.step(1, u16::MAX);
    }
    assert_eq!(p.current(), f(1000));
}

#[test]
fn interval_move_never_exceeds_ceiling() {
    let mut p = AxisPlanner::new(Fraction::zero());
    p.command(f(9999), Modifier::Interval { millis: 1 });
    assert_eq!(p.step(1, 50), f(50));
}

#[test]
fn speed_move_uses_rate() {
    let mut p = AxisPlanner::new(f(5000));
    p.command(f(0), Modifier::Speed { per_second: 1000 });
    assert_eq!(p.step(100, u16::MAX), f(4900));
    assert_eq!(p.step(100, 5), f(4800)); // rate (100) below ceiling (500)
    p.command(f(0), Modifier::Speed { per_second: 10_000 });
    assert_eq!(p.step(100, 5), f(4300)); // ceiling 5*100 = 500 wins
}

#[test]
fn force_and_retarget() {
    let mut p = AxisPlanner::new(f(5000));
    p.command(f(9999), Modifier::Interval { millis: 500 });
    p.retarget(Fraction::zero());
    assert_eq!(p.target(), Fraction::zero());
    p.force(f(123));
    assert_eq!(p.current(), f(123));
    assert!(p.is_settled());
    assert_eq!(p.step(0, 10), f(123));
}

#[test]
fn interval_move_follows_the_straight_line() {
    // 10 units over 100 ms: a unit every 10 ms, landing at the very end.
    let mut p = AxisPlanner::new(Fraction::zero());
    p.command(f(10), Modifier::Interval { millis: 100 });
    for _ in 0..49 {
        p.step(1, u16::MAX);
    }
    assert_eq!(p.current(), f(4));
    assert_eq!(p.step(1, u16::MAX), f(5));
    for _ in 0..49 {
        assert!(p.step(1, u16::MAX).raw() < 10);
    }
    assert_eq!(p.step(1, u16::MAX), f(10));
    assert!(p.is_settled());
}

#[test]
fn interval_move_rounds_toward_the_start() {
    // 1000 units over 3 ms: the line is at 333.3.., 666.6.., then 1000.
    let mut p = AxisPlanner::new(Fraction::zero());
    p.command(f(1000), Modifier::Interval { millis: 3 });
    assert_eq!(p.step(1, u16::MAX), f(333));
    assert_eq!(p.step(1, u16::MAX), f(666));
    assert_eq!(p.step(1, u16::MAX), f(1000));
    assert!(p.is_settled());
}

#[test]
fn interval_move_catches_up_after_the_ceiling() {
    // The ceiling holds it back at first; it then rejoins the line.
    let mut p = AxisPlanner::new(Fraction::zero());
    p.command(f(1000), Modifier::Interval { millis: 10 });
    assert_eq!(p.step(1, 50), f(50));
    assert_eq!(p.step(5, u16::MAX), f(600));
    assert_eq!(p.step(4, u16::MAX), f(1000));
}

#[test]
fn speed_move_carries_fractions_between_steps() {
    // S100 stepped every 5 ms: half a unit per step, 100 units per second.
    let mut p = AxisPlanner::new(Fraction::zero());
    p.command(f(1000), Modifier::Speed { per_second: 100 });
    for _ in 0..199 {
        p.step(5, u16::MAX);
    }
    assert_eq!(p.step(5, u16::MAX), f(100));
    // A new command starts afresh.
    p.command(f(0), Modifier::Speed { per_second: 300 });
    assert_eq!(p.step(3, u16::MAX), f(100));
    assert_eq!(p.step(1, u16::MAX), f(99));
}

#[test]
fn interval_move_with_uneven_steps_arrives_on_time() {
    let mut p = AxisPlanner::new(f(9000));
    p.command(f(1000), Modifier::Interval { millis: 250 });
    for dt in [7u32, 13, 100, 29, 1, 50] {
        p.step(dt, u16::MAX);
        assert!(p.current().raw() >= 1000);
    }
    // 200 ms elapsed so far; the last 50 ms land on the target.
    assert_eq!(p.step(50, u16::MAX), f(1000));
    assert!(p.is_settled());
}

#[test]
fn downward_moves_and_no_overshoot() {
    let mut p = AxisPlanner::new(f(300));
    p.command(f(100), Modifier::Immediate);
    assert_eq!(p.step(5, 30), f(150));
    assert_eq!(p.step(5, 30), f(100));
    assert_eq!(p.step(5, 30), f(100));
    assert!(p.is_settled());
}

#[test]
fn slow_speed_moves_nothing_within_a_millisecond() {
    let mut p = AxisPlanner::new(Fraction::zero());
    p.command(f(10), Modifier::Speed { per_second: 500 });
    assert_eq!(p.step(1, 100), Fraction::zero()); // 500 * 1 / 1000 = 0
    assert_eq!(p.step(2, 100), f(1));
    assert_eq!(AxisPlanner::default().current(), Fraction::zero());
}
