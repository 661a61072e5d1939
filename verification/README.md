# teledildo-core

The hardware-independent core of a TCode v0.3 teledildonics device: the
protocol parser, the line assembler, the per-axis motion planner, the safety
governor, the ADC conversions and the control loop's decisions, each with a
contract proved by Verus.

* `src/` — the library. `governor.rs` and `safety.rs` hold the safety laws
  (ceiling, slew, derating, fault latch, link watchdog), `motion.rs` the
  planner and the timing laws of `I` and `S` moves, `tcode.rs` the grammar
  and its laws (round trip, token independence, case-insensitivity),
  `line.rs` the line assembler and the laws that lines are delivered whole
  or not at all.
* `tests/` — unit tests and concrete instances of the laws.
* `app/` — the RP2040 firmware (Embassy): USB, ADC, PWM, watchdog and LED,
  moving values between the hardware and the library.
