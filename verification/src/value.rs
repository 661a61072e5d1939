//! Fixed-point magnitude type shared by the parser, planner and governor,
//! and the decimal-digit arithmetic its parser is specified with.

use vstd::prelude::*;

verus! {

/// Whether `b` is an ASCII decimal digit.
pub open spec fn is_digit(b: u8) -> bool {
    48 <= b <= 57
}

/// Whether every byte of `s` is an ASCII decimal digit.
pub open spec fn all_digits(s: Seq<u8>) -> bool {
    forall|i: int| 0 <= i < s.len() ==> #[trigger] is_digit(s[i])
}

/// The numeric value of the digit byte `b`.
pub open spec fn digit_value(b: u8) -> int {
    b - 48
}

/// The value of `s` read as a big-endian decimal numeral.
pub open spec fn dec_value(s: Seq<u8>) -> int
    decreases s.len(),
{
    if s.len() == 0 {
        0
    } else {
        dec_value(s.drop_last()) * 10 + digit_value(s.last())
    }
}

/// `10` to the power `n`.
pub open spec fn pow10(n: nat) -> nat
    decreases n,
{
    if n == 0 {
        1
    } else {
        10 * pow10((n - 1) as nat)
    }
}

/// The raw value a TCode magnitude of 1 to 4 digits stands for: the digits
/// after the decimal point, left-aligned to four places.
pub open spec fn tcode_magnitude(digits: Seq<u8>) -> Option<u16> {
    if 1 <= digits.len() <= 4 && all_digits(digits) {
        Some((dec_value(digits) * pow10((4 - digits.len()) as nat)) as u16)
    } else {
        None
    }
}

pub proof fn lemma_pow10_pos(n: nat)
    ensures
        pow10(n) >= 1,
    decreases n,
{
    if n > 0 {
        lemma_pow10_pos((n - 1) as nat);
    }
}

pub proof fn lemma_pow10_add(a: nat, b: nat)
    ensures
        pow10(a) * pow10(b) == pow10(a + b),
    decreases a,
{
    if a > 0 {
        lemma_pow10_add((a - 1) as nat, b);
        assert((a - 1) as nat + b == (a + b - 1) as nat);
        assert(pow10(a + b) == 10 * pow10((a + b - 1) as nat));
        assert(pow10(a) * pow10(b) == 10 * (pow10((a - 1) as nat) * pow10(b))) by (nonlinear_arith)
            requires
                pow10(a) == 10 * pow10((a - 1) as nat),
        ;
    } else {
        assert(pow10(0) == 1);
        assert(a + b == b);
    }
}

pub proof fn lemma_pow10_four()
    ensures
        pow10(4) == 10_000,
{
    reveal_with_fuel(pow10, 5);
}

/// A numeral of `n` digits is below `10^n`, and not negative.
pub proof fn lemma_dec_value_bound(s: Seq<u8>)
    requires
        all_digits(s),
    ensures
        0 <= dec_value(s) < pow10(s.len()),
    decreases s.len(),
{
    if s.len() > 0 {
        let p = s.drop_last();
        assert(all_digits(p)) by {
            assert forall|i: int| 0 <= i < p.len() implies #[trigger] is_digit(p[i]) by {
                assert(is_digit(s[i]));
            }
        }
        lemma_dec_value_bound(p);
        assert(is_digit(s[s.len() - 1]));
        assert(pow10(s.len()) == 10 * pow10((s.len() - 1) as nat));
        assert(dec_value(p) * 10 + 9 < 10 * pow10(p.len())) by (nonlinear_arith)
            requires
                dec_value(p) < pow10(p.len()),
        ;
    }
}

/// The digits of a magnitude are left-aligned into `0..=9999`.
pub proof fn lemma_tcode_magnitude_bound(digits: Seq<u8>)
    ensures
        tcode_magnitude(digits) matches Some(v) ==> v as int == dec_value(digits) * pow10(
            (4 - digits.len()) as nat,
        ) && v < 10_000,
{
    if 1 <= digits.len() <= 4 && all_digits(digits) {
        lemma_dec_value_bound(digits);
        let pad = (4 - digits.len()) as nat;
        lemma_pow10_add(digits.len(), pad);
        lemma_pow10_pos(pad);
        lemma_pow10_four();
        assert(dec_value(digits) * pow10(pad) < pow10(digits.len()) * pow10(pad)) by (
        nonlinear_arith)
            requires
                0 <= dec_value(digits) < pow10(digits.len()),
                pow10(pad) >= 1,
        ;
        assert(0 <= dec_value(digits) * pow10(pad)) by (nonlinear_arith)
            requires
                0 <= dec_value(digits),
        ;
    }
}

/// A magnitude in the TCode sense: a fraction of full scale, in units of
/// 1/10000. Valid values are `0..=9999` (`0.0000` to `0.9999`).
///
/// The type keeps its invariant from construction on, so downstream code can
/// scale it into a PWM compare value without a range check.
#[derive(Clone, Copy, Debug, PartialEq, Eq, Structural, PartialOrd, Ord, Hash)]
pub struct Fraction(u16);

impl Fraction {
    /// Number of steps in full scale (exclusive upper bound of the raw value).
    pub const SCALE: u16 = 10_000;

    #[verifier::type_invariant]
    spec fn in_range(self) -> bool {
        self.0 < 10_000
    }

    /// The raw value, in units of 1/10000 of full scale.
    pub closed spec fn view(self) -> u16 {
        self.0
    }

    /// The fraction whose raw value is `raw` (meaningful for `raw < 10000`).
    pub closed spec fn from_raw(raw: u16) -> Fraction {
        Fraction(raw)
    }

    pub broadcast proof fn lemma_from_raw_view(raw: u16)
        ensures
            #[trigger] Fraction::from_raw(raw)@ == raw,
    {
    }

    pub broadcast proof fn lemma_view_from_raw(f: Fraction)
        ensures
            #[trigger] Fraction::from_raw(f@) == f,
    {
    }

    /// Two fractions are equal exactly when their raw values are.
    pub proof fn lemma_view_eq(a: Fraction, b: Fraction)
        ensures
            (a@ == b@) <==> a == b,
    {
    }

    /// Zero.
    pub fn zero() -> (r: Self)
        ensures
            r@ == 0,
    {
        Self(0)
    }

    /// Half scale (`0.5000`).
    pub fn half() -> (r: Self)
        ensures
            r@ == 5_000,
    {
        Self(5_000)
    }

    /// Largest representable value (`0.9999`).
    pub fn maximum() -> (r: Self)
        ensures
            r@ == 9_999,
    {
        Self(9_999)
    }

    /// Construct from a raw value, rejecting anything `>= SCALE`.
    pub fn new(raw: u16) -> (r: Option<Self>)
        ensures
            r == (if raw < 10_000 {
                Some(Fraction::from_raw(raw))
            } else {
                None
            }),
    {
        if raw < Self::SCALE {
            Some(Self(raw))
        } else {
            None
        }
    }

    /// Construct from a raw value, clamping into range.
    pub fn saturating(raw: u16) -> (r: Self)
        ensures
            r@ == (if raw > 9_999 {
                9_999
            } else {
                raw
            }),
    {
        if raw > 9_999 {
            Self(9_999)
        } else {
            Self(raw)
        }
    }

    /// Construct from a wide raw value, clamping into range.
    pub fn saturating_u32(raw: u32) -> (r: Self)
        ensures
            r@ as int == (if raw > 9_999 {
                9_999
            } else {
                raw as int
            }),
    {
        if raw > 9_999 {
            Self(9_999)
        } else {
            Self(raw as u16)
        }
    }

    /// The raw value in `0..=9999`.
    pub fn raw(self) -> (r: u16)
        ensures
            r == self@,
            r < 10_000,
    {
        proof {
            use_type_invariant(&self);
        }
        self.0
    }

    /// Parse a TCode magnitude from 1 to 4 ASCII digits.
    ///
    /// TCode magnitudes are the digits *after* the decimal point, so `"5"`
    /// is `0.5`, `"05"` is `0.05` and `"0500"` is `0.05`. More than four
    /// digits, an empty slice, or a non-digit byte is rejected.
    pub fn from_tcode_digits(digits: &[u8]) -> (r: Option<Self>)
        ensures
            r == (match tcode_magnitude(digits@) {
                Some(v) => Some(Fraction::from_raw(v)),
                None => None,
            }),
    {
        if digits.len() == 0 || digits.len() > 4 {
            return None;
        }
        let mut value: u16 = 0;
        let mut i: usize = 0;
        while i < digits.len()
            invariant
                1 <= digits@.len() <= 4,
                0 <= i <= digits@.len(),
                all_digits(digits@.take(i as int)),
                value as int == dec_value(digits@.take(i as int)),
            decreases digits@.len() - i,
        {
            let d = digits[i];
            if !(d >= 48 && d <= 57) {
                assert(!all_digits(digits@)) by {
                    assert(!is_digit(digits@[i as int]));
                }
                return None;
            }
            let ghost prefix = digits@.take(i as int);
            let ghost next = digits@.take(i + 1);
            proof {
                assert(next.drop_last() =~= prefix);
                assert(all_digits(next)) by {
                    assert forall|k: int| 0 <= k < next.len() implies #[trigger] is_digit(next[k]) by {
                        if k < i {
                            assert(is_digit(prefix[k]));
                        }
                    }
                }
                lemma_dec_value_bound(next);
                lemma_pow10_four();
                assert(pow10(next.len()) <= pow10(4)) by {
                    lemma_pow10_add(next.len(), (4 - next.len()) as nat);
                    lemma_pow10_pos((4 - next.len()) as nat);
                    assert(pow10(next.len()) * pow10((4 - next.len()) as nat) >= pow10(next.len()))
                        by (nonlinear_arith)
                        requires
                            pow10((4 - next.len()) as nat) >= 1,
                    ;
                }
            }
            value = value * 10 + (d - 48) as u16;
            i = i + 1;
        }
        assert(digits@.take(digits@.len() as int) =~= digits@);
        proof {
            lemma_tcode_magnitude_bound(digits@);
            lemma_dec_value_bound(digits@);
        }
        assert(pow10(0) == 1);
        // Left-align: pad missing digits with zeros.
        let mut pad: usize = 4 - digits.len();
        assert(((4 - digits@.len()) - pad) as nat == 0);
        while pad > 0
            invariant
                0 <= pad <= 4 - digits@.len(),
                1 <= digits@.len() <= 4,
                all_digits(digits@),
                value as int == dec_value(digits@) * pow10(((4 - digits@.len()) - pad) as nat),
                tcode_magnitude(digits@) matches Some(v) && v < 10_000 && v as int == dec_value(
                    digits@,
                ) * pow10((4 - digits@.len()) as nat),
            decreases pad,
        {
            let ghost done = ((4 - digits@.len()) - pad) as nat;
            proof {
                let rest = (pad - 1) as nat;
                lemma_pow10_add(done + 1, rest);
                lemma_pow10_pos(rest);
                lemma_dec_value_bound(digits@);
                assert(pow10(done + 1) == 10 * pow10(done));
                assert(done + 1 + rest == 4 - digits@.len());
                assert(dec_value(digits@) * pow10(done + 1) <= dec_value(digits@) * pow10(done + 1)
                    * pow10(rest)) by (nonlinear_arith)
                    requires
                        dec_value(digits@) >= 0,
                        pow10(rest) >= 1,
                ;
                assert(dec_value(digits@) * pow10(done + 1) == (dec_value(digits@) * pow10(done))
                    * 10) by (nonlinear_arith)
                    requires
                        pow10(done + 1) == 10 * pow10(done),
                ;
                let dv = dec_value(digits@);
                let full = pow10((4 - digits@.len()) as nat);
                assert(pow10(done + 1) * pow10(rest) == full);
                assert(dv * full < 10_000);
                assert(value as int * 10 < 10_000) by (nonlinear_arith)
                    requires
                        value as int == dv * pow10(done),
                        pow10(done + 1) == 10 * pow10(done),
                        pow10(done + 1) * pow10(rest) == full,
                        dv * full < 10_000,
                        dv >= 0,
                        pow10(rest) >= 1,
                        pow10(done) >= 0,
                ;
            }
            value = value * 10;
            pad = pad - 1;
        }
        Self::new(value)
    }

    /// Scale into `0..=top`, e.g. a PWM compare value for a counter that
    /// wraps at `top`. Zero maps to `0`; the maximum (0.9999) maps to `top`
    /// or one step below it, depending on rounding.
    pub fn scale_to(self, top: u16) -> (r: u16)
        ensures
            r as int == self@ as int * (top as int + 1) / 10_000,
            r <= top,
    {
        proof {
            use_type_invariant(&self);
        }
        let span: u32 = top as u32 + 1;
        assert(self.0 as int * span as int <= 9_999 * 65_536) by (nonlinear_arith)
            requires
                self.0 < 10_000,
                span <= 65_536,
        ;
        let scaled: u32 = (self.0 as u32 * span) / 10_000;
        assert(scaled <= top) by (nonlinear_arith)
            requires
                scaled == self.0 as int * span as int / 10_000,
                self.0 < 10_000,
                span == top + 1,
        ;
        scaled as u16
    }

    /// The smaller of two fractions.
    pub fn min(self, other: Self) -> (r: Self)
        ensures
            r == (if other@ < self@ {
                other
            } else {
                self
            }),
    {
        if other.0 < self.0 {
            other
        } else {
            self
        }
    }

    /// Absolute difference in raw units.
    pub fn abs_diff(self, other: Self) -> (r: u16)
        ensures
            r as int == (if self@ >= other@ {
                self@ - other@
            } else {
                other@ - self@
            }),
    {
        if self.0 >= other.0 {
            self.0 - other.0
        } else {
            other.0 - self.0
        }
    }

    /// `self + delta`, clamped to the maximum.
    pub fn saturating_add(self, delta: u16) -> (r: Self)
        ensures
            r@ as int == (if self@ + delta > 9_999 {
                9_999
            } else {
                self@ + delta
            }),
    {
        proof {
            use_type_invariant(&self);
        }
        if delta > 9_999 - self.0 {
            Self(9_999)
        } else {
            Self(self.0 + delta)
        }
    }

    /// `self - delta`, clamped to zero.
    pub fn saturating_sub(self, delta: u16) -> (r: Self)
        ensures
            r@ as int == (if self@ >= delta {
                self@ - delta
            } else {
                0
            }),
    {
        proof {
            use_type_invariant(&self);
        }
        if delta > self.0 {
            Self(0)
        } else {
            Self(self.0 - delta)
        }
    }

    /// Approximate percentage (integer, truncating), handy for logging.
    pub fn percent(self) -> (r: u8)
        ensures
            r == self@ / 100,
    {
        proof {
            use_type_invariant(&self);
        }
        (self.0 / 100) as u8
    }
}

impl Default for Fraction {
    fn default() -> (r: Self)
        ensures
            r@ == 0,
    {
        Self(0)
    }
}

} // verus!
