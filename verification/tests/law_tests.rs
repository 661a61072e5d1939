//! Concrete instances of the laws the library proves: deterministic
//! pseudo-random interleavings of commands, ticks and byte strings.

use teledildo_core::governor::{
    Fault, Governor, Limits, Outputs, Sensors, State, VIBE_CHANNELS,
};
use teledildo_core::line::LineBuffer;
use teledildo_core::lookup::interpolate;
use teledildo_core::tcode::{parse_line, Axis, AxisKind, Command, DeviceCommand, Modifier};
use teledildo_core::value::Fraction;

/// A small linear congruential generator, enough to vary the inputs.
struct Lcg(u64);

impl Lcg {
    fn next(&mut self) -> u32 {
        self.0 = self.0.wrapping_mul(6_364_136_223_846_793_005).wrapping_add(1_442_695_040_888_963_407);
        (self.0 >> 33) as u32
    }
}

fn command(rng: &mut Lcg) -> Command {
    let target = Fraction::new((rng.next() % 10_000) as u16).unwrap();
    let modifier = match rng.next() % 3 {
        0 => Modifier::Immediate,
        1 => Modifier::Interval { millis: rng.next() % 3000 },
        _ => Modifier::Speed { per_second: rng.next() },
    };
    let index = (rng.next() % 10) as u8;
    match rng.next() % 4 {
        0 => Command::Device(DeviceCommand::Stop),
        1 => Command::Device(DeviceCommand::Identify),
        2 => Command::Move { axis: Axis { kind: AxisKind::Vibrate, index }, target, modifier },
        _ => Command::Move { axis: Axis { kind: AxisKind::Linear, index }, target, modifier },
    }
}

#[test]
fn law_ceiling_and_slew_hold() {
    let limits = Limits::default();
    for seed in 0..20 {
        let mut rng = Lcg(seed);
        let mut g = Governor::new(limits);
        let mut now = 0u64;
        let mut prev = g.outputs();
        for _ in 0..400 {
            if rng.next() % 2 == 0 {
                g.handle(&command(&mut rng), now);
            }
            let dt = u64::from(rng.next() % 2001);
            now += dt;
            let out = g.tick(now, &Sensors::default());
            let max_rise = u32::from(limits.vibe_slew_per_ms) * (dt as u32).min(limits.max_tick_ms);
            for i in 0..VIBE_CHANNELS {
                assert!(out.vibe[i] <= limits.max_vibe);
                assert!(u32::from(out.vibe[i].raw()) <= u32::from(prev.vibe[i].raw()) + max_rise);
            }
            assert_eq!(out.driver_enable, !out.is_silent());
            prev = out;
        }
    }
}

#[test]
fn law_faults_latch_until_cleared() {
    for seed in 0..20 {
        let mut rng = Lcg(seed + 100);
        let mut g = Governor::new(Limits::default());
        let mut now = 0u64;
        for _ in 0..100 {
            if rng.next() % 2 == 0 {
                g.handle(&command(&mut rng), now);
            }
            now += u64::from(rng.next() % 2001);
            g.tick(now, &Sensors::default());
        }
        g.report(Fault::EmergencyStop);
        assert_eq!(g.outputs(), Outputs::off());
        for _ in 0..100 {
            if rng.next() % 2 == 0 {
                g.handle(&command(&mut rng), now);
            }
            if rng.next() % 7 == 0 {
                g.link_down();
            }
            if rng.next() % 11 == 0 {
                g.report(Fault::Hardware);
            }
            now += u64::from(rng.next() % 2001);
            let hot = Sensors { temperature_dc: Some(900), ..Sensors::default() };
            let s = if rng.next() % 5 == 0 { hot } else { Sensors::default() };
            assert_eq!(g.tick(now, &s), Outputs::off());
            assert_eq!(g.state(), State::Faulted(Fault::EmergencyStop));
        }
        assert_eq!(g.clear_fault(&Sensors::default()), State::Idle);
        assert_eq!(g.outputs(), Outputs::off());
    }
}

#[test]
fn law_sensor_violation_faults_immediately() {
    let limits = Limits::default();
    let mut rng = Lcg(7);
    for _ in 0..2000 {
        let pick = |rng: &mut Lcg| rng.next() % 3 != 0;
        let sensors = Sensors {
            temperature_dc: if pick(&mut rng) { Some((rng.next() % 1000) as i16) } else { None },
            motor_current_ma: if pick(&mut rng) { Some((rng.next() % 3000) as u16) } else { None },
            supply_mv: if pick(&mut rng) { Some((rng.next() % 8000) as u16) } else { None },
        };
        let mut g = Governor::new(limits);
        let out = g.tick(0, &sensors);
        match sensors.violation(&limits) {
            Some(fault) => {
                assert_eq!(g.state(), State::Faulted(fault));
                assert_eq!(out, Outputs::off());
            }
            None => assert_eq!(g.state(), State::Idle),
        }
    }
}

#[test]
fn law_link_timeout_silences_vibration() {
    let limits = Limits::default();
    for seed in 0..20 {
        let mut rng = Lcg(seed + 1000);
        let mut g = Governor::new(limits);
        for _ in 0..(rng.next() % 8) {
            g.handle(&command(&mut rng), 0);
        }
        g.tick(0, &Sensors::default());
        let deadline = u64::from(limits.link_timeout_ms)
            + u64::from(Fraction::SCALE) / u64::from(limits.vibe_slew_per_ms)
            + 2 * u64::from(limits.max_tick_ms);
        let mut now = 0u64;
        let mut out = g.outputs();
        while now <= deadline {
            now += u64::from(limits.max_tick_ms);
            out = g.tick(now, &Sensors::default());
        }
        for i in 0..VIBE_CHANNELS {
            assert_eq!(out.vibe[i], Fraction::zero());
        }
    }
}

#[test]
fn law_parsed_moves_are_in_range() {
    let mut rng = Lcg(42);
    let alphabet = b"LRVADSTOPIs0123456789 \t\r\nxq";
    for _ in 0..2000 {
        let len = (rng.next() % 40) as usize;
        let bytes: Vec<u8> = (0..len)
            .map(|_| {
                if rng.next() % 4 == 0 {
                    (rng.next() % 256) as u8
                } else {
                    alphabet[(rng.next() as usize) % alphabet.len()]
                }
            })
            .collect();
        for item in parse_line(&bytes).collect() {
            if let Ok(Command::Move { target, axis, .. }) = item {
                assert!(target.raw() < Fraction::SCALE);
                assert!(axis.index <= 9);
            }
        }
    }
}

#[test]
fn law_line_buffer_never_exceeds_capacity() {
    let mut rng = Lcg(9);
    let mut lb = LineBuffer::<32>::new();
    for _ in 0..5000 {
        let b = if rng.next() % 20 == 0 { b'\n' } else { (rng.next() % 256) as u8 };
        lb.push(b);
        assert!(lb.line().len() <= 32);
    }
}

#[test]
fn law_lines_are_delivered_whole() {
    let mut rng = Lcg(11);
    for _ in 0..200 {
        let len = (rng.next() % 120) as usize;
        let bytes: Vec<u8> = (0..len)
            .map(|_| if rng.next() % 8 == 0 { b'\n' } else { b'a' + (rng.next() % 26) as u8 })
            .collect();
        let mut lb = LineBuffer::<6>::new();
        let mut got: Vec<Vec<u8>> = Vec::new();
        lb.push_all(&bytes, |l| got.push(l.to_vec()));
        let mut parts: Vec<&[u8]> = bytes.split(|b| *b == b'\n').collect();
        parts.pop(); // the unterminated tail is not a line yet
        let expected: Vec<Vec<u8>> =
            parts.iter().filter(|l| l.len() <= 6).map(|l| l.to_vec()).collect();
        let dropped = parts.iter().filter(|l| l.len() > 6).count();
        assert_eq!(got, expected);
        assert_eq!(lb.dropped_lines() as usize, dropped);
    }
}

#[test]
fn law_interpolation_stays_within_the_table() {
    let mut rng = Lcg(5);
    for _ in 0..500 {
        let mut table: Vec<(u16, i16)> = Vec::new();
        let mut x = (rng.next() % 100) as u16;
        for _ in 0..4 {
            table.push((x, (rng.next() % 65_536) as u16 as i16));
            x += 1 + (rng.next() % 500) as u16;
        }
        let lo = table.iter().map(|p| p.1).min().unwrap();
        let hi = table.iter().map(|p| p.1).max().unwrap();
        for _ in 0..20 {
            let x = (rng.next() % 2200) as u16;
            if let Some(y) = interpolate(&table, x) {
                assert!(lo <= y && y <= hi);
            }
        }
    }
}
