//! PWM geometry and sensor scaling for the reference board.
//!
//! ```text
//! Pico pin   Function                     Connects to
//! GP16       PWM0A  vibe motor 0          DRV8833 AIN1 (AIN2 -> GND)
//! GP17       PWM0B  vibe motor 1          DRV8833 BIN1 (BIN2 -> GND)
//! GP18       PWM1A  stroke servo, 50 Hz   servo signal (optional)
//! GP20       GPIO   driver enable         DRV8833 nSLEEP (10k pull-down)
//! GP15       GPIO   e-stop / clear        momentary switch to GND
//! GP25       GPIO   status LED            on-board LED
//! GP26/ADC0  NTC thermistor               10k NTC 3V3->pin, 10k pin->GND
//! GP27/ADC1  motor current                INA180A1 (20 V/V) over 0.1 ohm
//! GP29/ADC3  VSYS / 3                     Pico on-board divider
//! ```
//!
//! Every constant that changes when the hardware changes lives here.

use crate::lookup::{interpolate, lemma_interpolate_bounded, scale, spec_interpolate};
use vstd::prelude::*;

verus! {

/// System clock the PWM dividers below assume.
pub const SYS_CLK_HZ: u32 = 125_000_000;

/// Motor PWM: 125 MHz / (4999 + 1) = 25 kHz, above the audible range.
pub const MOTOR_PWM_TOP: u16 = 4_999;

/// Servo PWM: divider 100 -> 1.25 MHz tick; top 24_999 -> 20 ms period.
pub const SERVO_PWM_DIVIDER: u16 = 100;

/// Servo PWM counter top for a 50 Hz frame.
pub const SERVO_PWM_TOP: u16 = 24_999;

/// Servo pulse for one end of travel: 1.0 ms = 1250 ticks.
pub const SERVO_PULSE_MIN: u16 = 1_250;

/// Servo pulse span: 1.0 ms .. 2.0 ms = 1250 ticks.
pub const SERVO_PULSE_SPAN: u16 = 1_250;

/// RP2040 ADC is 12-bit.
pub const ADC_MAX: u16 = 4_095;

/// ADC reference in millivolts.
pub const ADC_REF_MV: u32 = 3_300;

/// INA180A1 (gain 20) across 0.1 ohm: 2 mV per mA, so full scale is
/// 3300 mV / 2 = 1650 mA.
pub const CURRENT_FULL_SCALE_MA: u32 = 1_650;

/// Pico VSYS is divided by 3 before ADC3.
pub const SUPPLY_FULL_SCALE_MV: u32 = ADC_REF_MV * 3;

/// The PWM geometry matches the clock: 25 kHz for the motors and 50 Hz for
/// the servo.
pub proof fn lemma_pwm_geometry()
    ensures
        SYS_CLK_HZ as int / (MOTOR_PWM_TOP as int + 1) == 25_000,
        SYS_CLK_HZ as int / SERVO_PWM_DIVIDER as int / (SERVO_PWM_TOP as int + 1) == 50,
{
}

/// 10k NTC (beta 3950) on top of a 10k divider, sampled at 12 bits.
/// Columns: ADC count, temperature in tenths of a degree Celsius, for
/// 0..=95 C in 5 C steps; anything outside is a sensor fault.
pub open spec fn spec_ntc_table() -> Seq<(u16, i16)> {
    seq![
        (939u16, 0i16),
        (1140, 50),
        (1357, 100),
        (1585, 150),
        (1817, 200),
        (2048, 250),
        (2270, 300),
        (2481, 350),
        (2676, 400),
        (2854, 450),
        (3014, 500),
        (3155, 550),
        (3280, 600),
        (3388, 650),
        (3482, 700),
        (3563, 750),
        (3633, 800),
        (3694, 850),
        (3745, 900),
        (3790, 950),
    ]
}

/// The thermistor calibration table.
pub fn ntc_table() -> (r: [(u16, i16); 20])
    ensures
        r@ == spec_ntc_table(),
{
    let r = [
        (939u16, 0i16),
        (1140, 50),
        (1357, 100),
        (1585, 150),
        (1817, 200),
        (2048, 250),
        (2270, 300),
        (2481, 350),
        (2676, 400),
        (2854, 450),
        (3014, 500),
        (3155, 550),
        (3280, 600),
        (3388, 650),
        (3482, 700),
        (3563, 750),
        (3633, 800),
        (3694, 850),
        (3745, 900),
        (3790, 950),
    ];
    assert(r@ =~= spec_ntc_table());
    r
}

/// Thermistor count to tenths of a degree, `None` for open/short/out of
/// table. A reading, when there is one, lies within the table's 0 to 95 C.
pub fn ntc_to_dc(count: u16) -> (r: Option<i16>)
    ensures
        r == spec_interpolate(spec_ntc_table(), count),
        r matches Some(t) ==> 0 <= t <= 950,
{
    let table = ntc_table();
    let r = interpolate(table.as_slice(), count);
    proof {
        lemma_interpolate_bounded(spec_ntc_table(), count);
        let t = spec_ntc_table();
        assert forall|j: int| 0 <= j < t.len() implies 0 <= #[trigger] t[j].1 <= 950 by {
        }
    }
    r
}

/// `count * full_scale / ADC_MAX`, which is at most `full_scale`.
pub open spec fn adc_units(count: u16, full_scale: u32) -> int {
    (count as int * full_scale as int) / ADC_MAX as int
}

/// Current-sense count to milliamps. Even a count beyond the 12-bit range
/// scales to at most 26406 mA, so there is always a value.
pub fn current_to_ma(count: u16) -> (r: Option<u16>)
    ensures
        r == Some(adc_units(count, CURRENT_FULL_SCALE_MA) as u16),
{
    proof {
        assert(adc_units(count, CURRENT_FULL_SCALE_MA) <= 26_406) by (nonlinear_arith)
            requires
                count <= 65_535,
                adc_units(count, CURRENT_FULL_SCALE_MA) == (count as int * 1_650) / 4_095,
        ;
    }
    scaled_u16(count, CURRENT_FULL_SCALE_MA)
}

/// Supply-sense count to millivolts; `None` when the value does not fit a
/// `u16` (a count beyond the 12-bit range). In range, at most 9900 mV.
pub fn supply_to_mv(count: u16) -> (r: Option<u16>)
    ensures
        r == (if adc_units(count, SUPPLY_FULL_SCALE_MV) <= u16::MAX {
            Some(adc_units(count, SUPPLY_FULL_SCALE_MV) as u16)
        } else {
            None
        }),
        count <= ADC_MAX ==> (r matches Some(v) && v <= 9_900),
{
    proof {
        if count <= ADC_MAX {
            assert(adc_units(count, SUPPLY_FULL_SCALE_MV) <= 9_900) by (nonlinear_arith)
                requires
                    count <= 4_095,
                    adc_units(count, SUPPLY_FULL_SCALE_MV) == (count as int * 9_900) / 4_095,
            ;
        }
    }
    scaled_u16(count, SUPPLY_FULL_SCALE_MV)
}

/// An ADC count scaled to `full_scale`, if the result fits a `u16`.
fn scaled_u16(count: u16, full_scale: u32) -> (r: Option<u16>)
    ensures
        r == (if adc_units(count, full_scale) <= u16::MAX {
            Some(adc_units(count, full_scale) as u16)
        } else {
            None
        }),
{
    proof {
        assert(0 <= count as int * full_scale as int) by (nonlinear_arith);
        assert(0 <= adc_units(count, full_scale)) by (nonlinear_arith)
            requires
                adc_units(count, full_scale) == (count as int * full_scale as int) / 4_095,
                0 <= count as int * full_scale as int,
        ;
    }
    match scale(count, full_scale, ADC_MAX) {
        Some(v) => {
            if v <= u16::MAX as u32 {
                Some(v as u16)
            } else {
                None
            }
        },
        None => None,
    }
}

} // verus!
