//! Hardware-independent logic for an open-source teledildonics device:
//!
//! * [`tcode`] — a parser for the TCode v0.3 text protocol (the protocol
//!   spoken by OSR-family strokers and supported by Buttplug / Intiface for
//!   remote control).
//! * [`line`] — a fixed-capacity line assembler that turns a byte stream into
//!   complete TCode lines without ever exceeding its capacity.
//! * [`motion`] — a per-axis planner that interpolates toward targets under a
//!   hard slew-rate ceiling.
//! * [`lookup`] — integer ADC-to-units conversion so sensor thresholds are
//!   computed by verified code.
//! * [`governor`] — the safety envelope. Every actuator setpoint the firmware
//!   is allowed to emit passes through [`governor::Governor::tick`], which
//!   enforces intensity ceilings, slew limits, a thermal duty budget, a link
//!   watchdog, and latched hardware faults.
//! * [`safety`] — the governor's laws over whole sequences of operations.
//! * [`board`] and [`control`] — the reference board's constants and sensor
//!   scaling, and the control loop's decisions apart from the hardware.
//! * [`value`] — the fixed-point magnitude type shared by all of the above.
//!
//! Time is passed in explicitly as `u64` milliseconds. The crate never reads
//! a clock, so every behaviour is reproducible and stated over plain values.

pub mod board;
pub mod control;
pub mod governor;
pub mod line;
pub mod lookup;
pub mod motion;
pub mod safety;
pub mod tcode;
pub mod value;
