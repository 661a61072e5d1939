//! Zero-allocation parser for the TCode v0.3 text protocol.
//!
//! A TCode line is a sequence of whitespace-separated tokens terminated by
//! `\n`. Each token is either an axis command such as `L0500I1000`
//! (`axis` `magnitude` [`modifier` `value`]) or a device command such as
//! `D0` or `DSTOP`. Letters are case-insensitive.
//!
//! ```text
//! L0500        move linear axis 0 to 0.5000 immediately (slew-limited)
//! V09999I2000  ramp vibration axis 0 to 0.9999 over 2000 ms
//! R1250S500    move rotation axis 1 to 0.25 at 500 units/s
//! DSTOP        stop all motion
//! ```
//!
//! The parser reports each malformed token individually so a bad token
//! cannot mask good ones on the same line.

use crate::value::{
    all_digits, dec_value, is_digit, lemma_pow10_four, pow10, tcode_magnitude, Fraction,
};
use vstd::prelude::*;

verus! {

broadcast use {Fraction::lemma_from_raw_view, Fraction::lemma_view_from_raw};

/// Axis families defined by TCode.
#[derive(Clone, Copy, Debug, PartialEq, Eq, Structural, Hash)]
pub enum AxisKind {
    /// `L` — linear position.
    Linear,
    /// `R` — rotation.
    Rotate,
    /// `V` — vibration intensity.
    Vibrate,
    /// `A` — auxiliary (valve, suction, ...).
    Aux,
}

/// An addressed axis: family plus a single-digit index (`0..=9`).
#[derive(Clone, Copy, Debug, PartialEq, Eq, Structural, Hash)]
pub struct Axis {
    /// Axis family.
    pub kind: AxisKind,
    /// Channel within the family, `0..=9`.
    pub index: u8,
}

/// Timing modifier attached to a move.
#[derive(Clone, Copy, Debug, PartialEq, Eq, Structural)]
pub enum Modifier {
    /// No modifier: reach the target as fast as the slew limit allows.
    Immediate,
    /// `I<n>`: reach the target in `n` milliseconds.
    Interval {
        /// Duration of the move in milliseconds.
        millis: u32,
    },
    /// `S<n>`: move at `n` raw units (1/10000 of full scale) per second.
    Speed {
        /// Rate in raw units per second.
        per_second: u32,
    },
}

/// `D`-prefixed device commands.
#[derive(Clone, Copy, Debug, PartialEq, Eq, Structural)]
pub enum DeviceCommand {
    /// `D0` — identify. The device answers `TCode v0.3`.
    Identify,
    /// `D1` — firmware name/version.
    Version,
    /// `D2` — list supported axes.
    ListAxes,
    /// `DSTOP` — halt all motion.
    Stop,
}

/// One parsed TCode token.
#[derive(Clone, Copy, Debug, PartialEq, Eq, Structural)]
pub enum Command {
    /// Move an axis toward a target magnitude.
    Move {
        /// Which axis.
        axis: Axis,
        /// Target magnitude.
        target: Fraction,
        /// How fast to get there.
        modifier: Modifier,
    },
    /// A device-level command.
    Device(DeviceCommand),
}

/// Why a token was rejected.
#[derive(Clone, Copy, Debug, PartialEq, Eq, Structural)]
pub enum ParseError {
    /// First byte is not one of `L R V A D`.
    UnknownPrefix(u8),
    /// Axis letter not followed by a digit.
    MissingIndex,
    /// Magnitude missing, longer than 4 digits, or not digits.
    BadMagnitude,
    /// Modifier letter not `I`/`S`, or its value missing/too long/not digits.
    BadModifier,
    /// `D` followed by something other than `0`, `1`, `2` or `STOP`.
    UnknownDeviceCommand,
    /// Unexpected bytes after an otherwise valid token.
    Trailing,
}

// ---------------------------------------------------------------------------
// Specification of the grammar.
// ---------------------------------------------------------------------------

/// ASCII upper-casing of one byte.
pub open spec fn to_upper(b: u8) -> u8 {
    if 97 <= b <= 122 {
        (b - 32) as u8
    } else {
        b
    }
}

/// Token separators: space, tab, CR and LF.
pub open spec fn is_separator(b: u8) -> bool {
    b == 32 || b == 9 || b == 13 || b == 10
}

/// The axis family named by a letter, in either case.
pub open spec fn spec_axis_kind(letter: u8) -> Option<AxisKind> {
    let u = to_upper(letter);
    if u == 76 {
        Some(AxisKind::Linear)
    } else if u == 82 {
        Some(AxisKind::Rotate)
    } else if u == 86 {
        Some(AxisKind::Vibrate)
    } else if u == 65 {
        Some(AxisKind::Aux)
    } else {
        None
    }
}

/// The upper-case TCode letter of an axis family.
pub open spec fn spec_letter(kind: AxisKind) -> u8 {
    match kind {
        AxisKind::Linear => 76,
        AxisKind::Rotate => 82,
        AxisKind::Vibrate => 86,
        AxisKind::Aux => 65,
    }
}

/// Index of the first non-digit of `s` at or after `i`.
pub open spec fn digits_end(s: Seq<u8>, i: int) -> int
    decreases s.len() - i,
{
    if i < 0 || i >= s.len() || !is_digit(s[i]) {
        i
    } else {
        digits_end(s, i + 1)
    }
}

/// Index of the first non-separator of `s` at or after `i`.
pub open spec fn separators_end(s: Seq<u8>, i: int) -> int
    decreases s.len() - i,
{
    if i < 0 || i >= s.len() || !is_separator(s[i]) {
        i
    } else {
        separators_end(s, i + 1)
    }
}

/// Index of the first separator of `s` at or after `i`.
pub open spec fn word_end(s: Seq<u8>, i: int) -> int
    decreases s.len() - i,
{
    if i < 0 || i >= s.len() || is_separator(s[i]) {
        i
    } else {
        word_end(s, i + 1)
    }
}

/// A modifier value: 1 to 10 digits whose value fits a `u32`.
pub open spec fn spec_parse_u32(digits: Seq<u8>) -> Option<u32> {
    if digits.len() == 0 || digits.len() > 10 || !all_digits(digits) || dec_value(digits)
        > u32::MAX {
        None
    } else {
        Some(dec_value(digits) as u32)
    }
}

/// The byte `b` is the upper-case letter `upper` in either case.
pub open spec fn letter_is(b: u8, upper: u8) -> bool {
    to_upper(b) == upper
}

/// A device command: what follows the `D`.
pub open spec fn spec_parse_device(rest: Seq<u8>) -> Result<Command, ParseError> {
    if rest.len() == 1 && rest[0] == 48 {
        Ok(Command::Device(DeviceCommand::Identify))
    } else if rest.len() == 1 && rest[0] == 49 {
        Ok(Command::Device(DeviceCommand::Version))
    } else if rest.len() == 1 && rest[0] == 50 {
        Ok(Command::Device(DeviceCommand::ListAxes))
    } else if rest.len() == 4 && letter_is(rest[0], 83) && letter_is(rest[1], 84) && letter_is(
        rest[2],
        79,
    ) && letter_is(rest[3], 80) {
        Ok(Command::Device(DeviceCommand::Stop))
    } else {
        Err(ParseError::UnknownDeviceCommand)
    }
}

/// The modifier part of a move: a letter and its digits, or nothing.
pub open spec fn spec_parse_modifier(r: Seq<u8>) -> Result<Modifier, ParseError> {
    if r.len() == 0 {
        Ok(Modifier::Immediate)
    } else {
        let m = r[0];
        let digits = r.drop_first();
        if digits_end(digits, 0) < digits.len() {
            Err(ParseError::Trailing)
        } else {
            match spec_parse_u32(digits) {
                None => Err(ParseError::BadModifier),
                Some(value) => if letter_is(m, 73) {
                    Ok(Modifier::Interval { millis: value })
                } else if letter_is(m, 83) {
                    Ok(Modifier::Speed { per_second: value })
                } else {
                    Err(ParseError::BadModifier)
                },
            }
        }
    }
}

/// A move: what follows the axis letter.
pub open spec fn spec_parse_move(kind: AxisKind, rest: Seq<u8>) -> Result<Command, ParseError> {
    if rest.len() == 0 || !is_digit(rest[0]) {
        Err(ParseError::MissingIndex)
    } else {
        let axis = Axis { kind, index: (rest[0] - 48) as u8 };
        let r1 = rest.drop_first();
        let n = digits_end(r1, 0);
        match tcode_magnitude(r1.take(n)) {
            None => Err(ParseError::BadMagnitude),
            Some(v) => match spec_parse_modifier(r1.skip(n)) {
                Err(e) => Err(e),
                Ok(modifier) => Ok(Command::Move { axis, target: Fraction::from_raw(v), modifier }),
            },
        }
    }
}

/// One whitespace-free token.
pub open spec fn spec_parse_token(t: Seq<u8>) -> Result<Command, ParseError> {
    if t.len() == 0 {
        Err(ParseError::UnknownPrefix(0))
    } else if t[0] == 68 || t[0] == 100 {
        spec_parse_device(t.drop_first())
    } else {
        match spec_axis_kind(t[0]) {
            None => Err(ParseError::UnknownPrefix(t[0])),
            Some(kind) => spec_parse_move(kind, t.drop_first()),
        }
    }
}

/// The next token of `s` and what follows it, skipping leading separators.
pub open spec fn spec_next_token(s: Seq<u8>) -> Option<(Seq<u8>, Seq<u8>)> {
    let start = separators_end(s, 0);
    if start >= s.len() {
        None
    } else {
        let end = word_end(s, start);
        Some((s.subrange(start, end), s.subrange(end, s.len() as int)))
    }
}

/// Every token of `s`, parsed, in order.
pub open spec fn spec_parse_all(s: Seq<u8>) -> Seq<Result<Command, ParseError>>
    decreases s.len(),
{
    match spec_next_token(s) {
        None => Seq::empty(),
        Some((token, tail)) => {
            proof {
                lemma_next_token_progress(s);
            }
            seq![spec_parse_token(token)] + spec_parse_all(tail)
        },
    }
}

pub proof fn lemma_digits_end_bounds(s: Seq<u8>, i: int)
    requires
        0 <= i <= s.len(),
    ensures
        i <= digits_end(s, i) <= s.len(),
        forall|k: int| i <= k < digits_end(s, i) ==> #[trigger] is_digit(s[k]),
        digits_end(s, i) < s.len() ==> !is_digit(s[digits_end(s, i)]),
    decreases s.len() - i,
{
    if i < s.len() && is_digit(s[i]) {
        lemma_digits_end_bounds(s, i + 1);
    }
}

pub proof fn lemma_separators_end_bounds(s: Seq<u8>, i: int)
    requires
        0 <= i <= s.len(),
    ensures
        i <= separators_end(s, i) <= s.len(),
        separators_end(s, i) < s.len() ==> !is_separator(s[separators_end(s, i)]),
    decreases s.len() - i,
{
    if i < s.len() && is_separator(s[i]) {
        lemma_separators_end_bounds(s, i + 1);
    }
}

pub proof fn lemma_word_end_bounds(s: Seq<u8>, i: int)
    requires
        0 <= i <= s.len(),
    ensures
        i <= word_end(s, i) <= s.len(),
        forall|k: int| i <= k < word_end(s, i) ==> !#[trigger] is_separator(s[k]),
        word_end(s, i) < s.len() ==> is_separator(s[word_end(s, i)]),
    decreases s.len() - i,
{
    if i < s.len() && !is_separator(s[i]) {
        lemma_word_end_bounds(s, i + 1);
    }
}

/// A token is never empty, so the rest of the line is strictly shorter.
pub proof fn lemma_next_token_progress(s: Seq<u8>)
    ensures
        spec_next_token(s) matches Some((token, tail)) ==> token.len() >= 1 && tail.len()
            < s.len(),
{
    lemma_separators_end_bounds(s, 0);
    let start = separators_end(s, 0);
    if start < s.len() {
        lemma_word_end_bounds(s, start);
        if word_end(s, start) == start {
            assert(is_separator(s[start]));
        }
    }
}

/// A command whose move, if it is one, addresses an index in `0..=9` with a
/// magnitude below full scale.
pub open spec fn spec_move_in_range(c: Result<Command, ParseError>) -> bool {
    c matches Ok(Command::Move { axis, target, .. }) ==> axis.index <= 9 && target@ < 10_000
}

/// Every move the parser produces from any token addresses an index in
/// `0..=9` and carries a magnitude below full scale.
pub proof fn lemma_parse_token_in_range(t: Seq<u8>)
    ensures
        spec_move_in_range(spec_parse_token(t)),
{
    if t.len() > 0 && !(t[0] == 68 || t[0] == 100) {
        let rest = t.drop_first();
        if rest.len() > 0 && is_digit(rest[0]) {
            let r1 = rest.drop_first();
            crate::value::lemma_tcode_magnitude_bound(r1.take(digits_end(r1, 0)));
        }
    }
}

/// Every move the parser produces from any line, whatever its bytes,
/// addresses an index in `0..=9` and carries a magnitude below full scale.
pub proof fn lemma_parse_line_in_range(s: Seq<u8>)
    ensures
        forall|i: int|
            0 <= i < spec_parse_all(s).len() ==> spec_move_in_range(#[trigger] spec_parse_all(s)[i]),
    decreases s.len(),
{
    lemma_next_token_progress(s);
    if let Some((token, tail)) = spec_next_token(s) {
        lemma_parse_token_in_range(token);
        lemma_parse_line_in_range(tail);
        let all = spec_parse_all(s);
        assert(all == seq![spec_parse_token(token)] + spec_parse_all(tail));
        assert forall|i: int| 0 <= i < all.len() implies spec_move_in_range(#[trigger] all[i]) by {
            if i > 0 {
                assert(all[i] == spec_parse_all(tail)[i - 1]);
            }
        }
    }
}

proof fn lemma_separators_end_shift(a: Seq<u8>, r: Seq<u8>, j: int)
    requires
        0 <= j <= r.len(),
    ensures
        separators_end(a + r, a.len() + j) == a.len() + separators_end(r, j),
    decreases r.len() - j,
{
    if j < r.len() {
        assert((a + r)[a.len() + j] == r[j]);
        lemma_separators_end_shift(a, r, j + 1);
    }
}

proof fn lemma_word_end_shift(a: Seq<u8>, r: Seq<u8>, j: int)
    requires
        0 <= j <= r.len(),
    ensures
        word_end(a + r, a.len() + j) == a.len() + word_end(r, j),
    decreases r.len() - j,
{
    if j < r.len() {
        assert((a + r)[a.len() + j] == r[j]);
        lemma_word_end_shift(a, r, j + 1);
    }
}

proof fn lemma_separators_end_concat(a: Seq<u8>, r: Seq<u8>, i: int)
    requires
        0 <= i <= a.len(),
    ensures
        separators_end(a + r, i) == if separators_end(a, i) < a.len() {
            separators_end(a, i)
        } else {
            a.len() + separators_end(r, 0)
        },
    decreases a.len() - i,
{
    if i == a.len() {
        lemma_separators_end_shift(a, r, 0);
    } else {
        assert((a + r)[i] == a[i]);
        if is_separator(a[i]) {
            lemma_separators_end_concat(a, r, i + 1);
        }
    }
}

proof fn lemma_word_end_concat(a: Seq<u8>, r: Seq<u8>, i: int)
    requires
        0 <= i <= a.len(),
    ensures
        word_end(a + r, i) == if word_end(a, i) < a.len() {
            word_end(a, i)
        } else {
            a.len() + word_end(r, 0)
        },
    decreases a.len() - i,
{
    if i == a.len() {
        lemma_word_end_shift(a, r, 0);
    } else {
        assert((a + r)[i] == a[i]);
        if !is_separator(a[i]) {
            lemma_word_end_concat(a, r, i + 1);
        }
    }
}

/// Tokens are parsed independently: joining two lines with a separator
/// parses to the commands of the first followed by those of the second, so
/// a malformed token never hides or alters the tokens around it.
pub proof fn lemma_parse_concat(a: Seq<u8>, sep: u8, b: Seq<u8>)
    requires
        is_separator(sep),
    ensures
        spec_parse_all(a + seq![sep] + b) == spec_parse_all(a) + spec_parse_all(b),
    decreases a.len(),
{
    let r = seq![sep] + b;
    let s = a + r;
    assert(a + seq![sep] + b =~= s);
    let n = a.len() + 1;
    let p = a + seq![sep];
    assert(s =~= p + b);
    lemma_separators_end_bounds(a, 0);
    lemma_separators_end_concat(a, r, 0);
    lemma_next_token_progress(a);
    match spec_next_token(a) {
        None => {
            assert(spec_parse_all(a) =~= Seq::<Result<Command, ParseError>>::empty());
            // The whole of `a`, and the separator, are skipped.
            lemma_separators_end_concat(seq![sep], b, 0);
            assert(separators_end(seq![sep], 1) == 1);
            assert(separators_end(seq![sep], 0) == 1);
            assert(separators_end(s, 0) == n + separators_end(b, 0));
            lemma_separators_end_bounds(b, 0);
            let start = separators_end(b, 0);
            if start < b.len() {
                lemma_word_end_bounds(b, start);
                lemma_word_end_shift(p, b, start);
                let end = word_end(b, start);
                assert(s.subrange(n + start, n + end) =~= b.subrange(start, end));
                assert(s.subrange(n + end, s.len() as int) =~= b.subrange(end, b.len() as int));
            }
            assert(spec_next_token(s) == spec_next_token(b));
            assert(spec_parse_all(a) + spec_parse_all(b) =~= spec_parse_all(b));
        },
        Some((token, tail)) => {
            let start = separators_end(a, 0);
            lemma_word_end_bounds(a, start);
            lemma_word_end_concat(a, r, start);
            let end = word_end(a, start);
            assert(word_end(r, 0) == 0);
            assert(word_end(s, start) == end);
            assert(s.subrange(start, end) =~= token);
            let tail_s = s.subrange(end, s.len() as int);
            assert(tail_s =~= tail + seq![sep] + b);
            lemma_parse_concat(tail, sep, b);
            assert(spec_next_token(s) == Some((token, tail_s)));
            assert(spec_parse_all(s) == seq![spec_parse_token(token)] + spec_parse_all(tail_s));
            assert(spec_parse_all(a) == seq![spec_parse_token(token)] + spec_parse_all(tail));
            assert(spec_parse_all(s) =~= spec_parse_all(a) + spec_parse_all(b));
        },
    }
}

// ---------------------------------------------------------------------------
// Letters are case-insensitive.
// ---------------------------------------------------------------------------

/// `t` with every ASCII letter in upper case.
pub open spec fn upcase(t: Seq<u8>) -> Seq<u8> {
    t.map_values(|b: u8| to_upper(b))
}

/// A parse result as it reads for the upper-cased token: only the byte
/// echoed by [`ParseError::UnknownPrefix`] changes case.
pub open spec fn upcase_result(r: Result<Command, ParseError>) -> Result<Command, ParseError> {
    match r {
        Err(ParseError::UnknownPrefix(b)) => Err(ParseError::UnknownPrefix(to_upper(b))),
        other => other,
    }
}

proof fn lemma_upcase_slices(t: Seq<u8>, n: int)
    requires
        0 <= n <= t.len(),
    ensures
        upcase(t).len() == t.len(),
        upcase(t).take(n) =~= upcase(t.take(n)),
        upcase(t).skip(n) =~= upcase(t.skip(n)),
        t.len() > 0 ==> upcase(t).drop_first() =~= upcase(t.drop_first()),
        forall|k: int| 0 <= k < t.len() ==> #[trigger] upcase(t)[k] == to_upper(t[k]),
{
}

proof fn lemma_upcase_digits_end(s: Seq<u8>, i: int)
    requires
        0 <= i <= s.len(),
    ensures
        digits_end(upcase(s), i) == digits_end(s, i),
    decreases s.len() - i,
{
    lemma_upcase_slices(s, 0);
    if i < s.len() {
        lemma_upcase_digits_end(s, i + 1);
    }
}

proof fn lemma_upcase_digits(s: Seq<u8>)
    ensures
        all_digits(upcase(s)) == all_digits(s),
        all_digits(s) ==> upcase(s) =~= s,
{
    lemma_upcase_slices(s, 0);
    if !all_digits(s) {
        let k = choose|k: int| 0 <= k < s.len() && !#[trigger] is_digit(s[k]);
        assert(!is_digit(upcase(s)[k]));
    } else {
        assert forall|k: int| 0 <= k < s.len() implies #[trigger] upcase(s)[k] == s[k] by {
            assert(is_digit(s[k]));
        }
    }
}

proof fn lemma_upcase_modifier(r: Seq<u8>)
    ensures
        spec_parse_modifier(upcase(r)) == spec_parse_modifier(r),
{
    lemma_upcase_slices(r, 0);
    if r.len() > 0 {
        let digits = r.drop_first();
        lemma_upcase_digits_end(digits, 0);
        lemma_upcase_digits(digits);
    }
}

proof fn lemma_upcase_move(kind: AxisKind, rest: Seq<u8>)
    ensures
        spec_parse_move(kind, upcase(rest)) == spec_parse_move(kind, rest),
{
    lemma_upcase_slices(rest, 0);
    if rest.len() > 0 && is_digit(rest[0]) {
        let r1 = rest.drop_first();
        lemma_upcase_digits_end(r1, 0);
        lemma_digits_end_bounds(r1, 0);
        let n = digits_end(r1, 0);
        lemma_upcase_slices(r1, n);
        assert(all_digits(r1.take(n))) by {
            assert forall|k: int| 0 <= k < n implies #[trigger] is_digit(r1.take(n)[k]) by {
                assert(is_digit(r1[k]));
            }
        }
        lemma_upcase_digits(r1.take(n));
        lemma_upcase_modifier(r1.skip(n));
    }
}

/// Letters are case-insensitive: a token parses to the same command as its
/// upper-case form, and to the same error but for the byte an
/// `UnknownPrefix` echoes, which keeps the case it was written in.
pub proof fn lemma_parse_token_case_insensitive(t: Seq<u8>)
    ensures
        spec_parse_token(upcase(t)) == upcase_result(spec_parse_token(t)),
{
    lemma_upcase_slices(t, 0);
    if t.len() > 0 {
        let u = upcase(t);
        let rest = t.drop_first();
        lemma_upcase_slices(rest, 0);
        if t[0] == 68 || t[0] == 100 {
            assert(u[0] == 68);
        } else {
            assert(u[0] != 68 && u[0] != 100);
            assert(spec_axis_kind(u[0]) == spec_axis_kind(t[0]));
            lemma_upcase_move(AxisKind::Linear, rest);
            lemma_upcase_move(AxisKind::Rotate, rest);
            lemma_upcase_move(AxisKind::Vibrate, rest);
            lemma_upcase_move(AxisKind::Aux, rest);
        }
    }
}

// ---------------------------------------------------------------------------
// Well-formed moves, as a host writes them, parse back to what was written.
// ---------------------------------------------------------------------------

/// The ASCII digit for `d` in `0..=9`.
pub open spec fn digit_byte(d: int) -> u8 {
    (d + 48) as u8
}

/// `n` in decimal, without leading zeros.
pub open spec fn decimal(n: nat) -> Seq<u8>
    decreases n,
{
    if n < 10 {
        seq![digit_byte(n as int)]
    } else {
        decimal(n / 10).push(digit_byte((n % 10) as int))
    }
}

/// The last `width` decimal digits of `n`, padded with leading zeros.
pub open spec fn zero_padded(n: nat, width: nat) -> Seq<u8>
    decreases width,
{
    if width == 0 {
        Seq::empty()
    } else {
        zero_padded(n / 10, (width - 1) as nat).push(digit_byte((n % 10) as int))
    }
}

/// A modifier as written after the magnitude: nothing, `I<millis>` or
/// `S<per_second>`.
pub open spec fn format_modifier(m: Modifier) -> Seq<u8> {
    match m {
        Modifier::Immediate => Seq::empty(),
        Modifier::Interval { millis } => seq![73u8] + decimal(millis as nat),
        Modifier::Speed { per_second } => seq![83u8] + decimal(per_second as nat),
    }
}

/// A move token: the upper-case axis letter, the index digit, the raw
/// magnitude as four digits, then the modifier.
pub open spec fn format_move(axis: Axis, raw: u16, m: Modifier) -> Seq<u8> {
    seq![spec_letter(axis.kind), digit_byte(axis.index as int)] + zero_padded(raw as nat, 4)
        + format_modifier(m)
}

proof fn lemma_decimal(n: nat)
    ensures
        all_digits(decimal(n)),
        dec_value(decimal(n)) == n,
        decimal(n).len() >= 1,
    decreases n,
{
    let d = decimal(n);
    if n < 10 {
        assert(d.drop_last() =~= Seq::<u8>::empty());
        assert(dec_value(d) == dec_value(d.drop_last()) * 10 + (d.last() - 48));
    } else {
        lemma_decimal(n / 10);
        let p = decimal(n / 10);
        assert(d.drop_last() =~= p);
        assert(d.last() == digit_byte((n % 10) as int));
        assert(dec_value(d) == (n / 10) * 10 + n % 10);
        vstd::arithmetic::div_mod::lemma_fundamental_div_mod(n as int, 10);
        assert(all_digits(d)) by {
            assert forall|i: int| 0 <= i < d.len() implies #[trigger] is_digit(d[i]) by {
                if i < p.len() {
                    assert(is_digit(p[i]));
                }
            }
        }
    }
}

proof fn lemma_decimal_len(n: nat, k: nat)
    requires
        n < pow10(k),
        k >= 1,
    ensures
        decimal(n).len() <= k,
    decreases n,
{
    if n >= 10 {
        if k <= 1 {
            reveal_with_fuel(pow10, 2);
        } else {
            assert(pow10(k) == 10 * pow10((k - 1) as nat));
            lemma_decimal_len(n / 10, (k - 1) as nat);
            assert(decimal(n).len() == decimal(n / 10).len() + 1);
        }
    }
}

proof fn lemma_zero_padded(n: nat, w: nat)
    ensures
        all_digits(zero_padded(n, w)),
        zero_padded(n, w).len() == w,
        dec_value(zero_padded(n, w)) == n % pow10(w),
    decreases w,
{
    let z = zero_padded(n, w);
    if w == 0 {
        assert(pow10(0) == 1);
    } else {
        let w1 = (w - 1) as nat;
        lemma_zero_padded(n / 10, w1);
        let p = zero_padded(n / 10, w1);
        assert(z.drop_last() =~= p);
        assert(all_digits(z)) by {
            assert forall|i: int| 0 <= i < z.len() implies #[trigger] is_digit(z[i]) by {
                if i < p.len() {
                    assert(is_digit(p[i]));
                }
            }
        }
        crate::value::lemma_pow10_pos(w1);
        vstd::arithmetic::div_mod::lemma_breakdown(n as int, 10, pow10(w1) as int);
        assert(pow10(w) == 10 * pow10(w1));
    }
}

proof fn lemma_digits_end_at(s: Seq<u8>, i: int, j: int)
    requires
        0 <= i <= j <= s.len(),
        forall|k: int| i <= k < j ==> #[trigger] is_digit(s[k]),
        j < s.len() ==> !is_digit(s[j]),
    ensures
        digits_end(s, i) == j,
    decreases j - i,
{
    if i < j {
        lemma_digits_end_at(s, i + 1, j);
    }
}

proof fn lemma_word_end_at_len(s: Seq<u8>, i: int)
    requires
        0 <= i <= s.len(),
        forall|k: int| i <= k < s.len() ==> !#[trigger] is_separator(s[k]),
    ensures
        word_end(s, i) == s.len(),
    decreases s.len() - i,
{
    if i < s.len() {
        lemma_word_end_at_len(s, i + 1);
    }
}

proof fn lemma_format_modifier(m: Modifier)
    ensures
        spec_parse_modifier(format_modifier(m)) == Ok::<Modifier, ParseError>(m),
        format_modifier(m).len() > 0 ==> !is_digit(format_modifier(m)[0]),
        forall|k: int|
            0 <= k < format_modifier(m).len() ==> !#[trigger] is_separator(format_modifier(m)[k]),
{
    let f = format_modifier(m);
    let value: nat = match m {
        Modifier::Immediate => 0,
        Modifier::Interval { millis } => millis as nat,
        Modifier::Speed { per_second } => per_second as nat,
    };
    if !(m is Immediate) {
        let d = decimal(value);
        lemma_decimal(value);
        reveal_with_fuel(pow10, 11);
        lemma_decimal_len(value, 10);
        assert(f.drop_first() =~= d);
        lemma_digits_end_at(d, 0, d.len() as int);
        assert forall|k: int| 0 <= k < f.len() implies !#[trigger] is_separator(f[k]) by {
            if k > 0 {
                assert(f[k] == d[k - 1]);
                assert(is_digit(d[k - 1]));
            }
        }
    }
}

/// A well-formed move token, written as a host writes it (upper-case letter,
/// index digit, four-digit magnitude, optional `I` or `S` modifier with its
/// decimal value), parses back to exactly the move that was written.
pub proof fn lemma_format_move_round_trip(axis: Axis, raw: u16, m: Modifier)
    requires
        axis.index <= 9,
        raw < 10_000,
    ensures
        spec_parse_all(format_move(axis, raw, m)) == seq![
            Ok::<Command, ParseError>(
                Command::Move { axis, target: Fraction::from_raw(raw), modifier: m },
            ),
        ],
{
    let s = format_move(axis, raw, m);
    let p = zero_padded(raw as nat, 4);
    let f = format_modifier(m);
    lemma_zero_padded(raw as nat, 4);
    lemma_pow10_four();
    lemma_format_modifier(m);
    assert(s.len() == 6 + f.len());
    assert forall|k: int| 0 <= k < s.len() implies !#[trigger] is_separator(s[k]) by {
        if 2 <= k < 6 {
            assert(s[k] == p[k - 2]);
            assert(is_digit(p[k - 2]));
        } else if k >= 6 {
            assert(s[k] == f[k - 6]);
        }
    }
    // The whole line is one token.
    assert(separators_end(s, 0) == 0);
    lemma_word_end_at_len(s, 0);
    assert(s.subrange(0, s.len() as int) =~= s);
    let empty = s.subrange(s.len() as int, s.len() as int);
    assert(empty =~= Seq::<u8>::empty());
    assert(separators_end(empty, 0) == 0);
    assert(spec_parse_all(empty) =~= Seq::<Result<Command, ParseError>>::empty());
    assert(spec_parse_all(s) =~= seq![spec_parse_token(s)] + spec_parse_all(empty));
    // The token parses to the move.
    let rest = s.drop_first();
    let r1 = rest.drop_first();
    assert(r1 =~= p + f);
    assert forall|k: int| 0 <= k < 4 implies #[trigger] is_digit(r1[k]) by {
        assert(r1[k] == p[k]);
        assert(is_digit(p[k]));
    }
    if f.len() > 0 {
        assert(r1[4] == f[0]);
    }
    lemma_digits_end_at(r1, 0, 4);
    assert(r1.take(4) =~= p);
    assert(r1.skip(4) =~= f);
    assert(pow10(0) == 1);
    assert(dec_value(p) == raw as int);
    assert((4 - p.len()) as nat == 0);
    assert(all_digits(p));
    assert(dec_value(p) * pow10(0) == raw as int) by (nonlinear_arith)
        requires
            pow10(0) == 1,
            dec_value(p) == raw as int,
    ;
    assert(tcode_magnitude(p) == Some(raw));
    assert(Axis { kind: axis.kind, index: (rest[0] - 48) as u8 } == axis);
}

// ---------------------------------------------------------------------------
// Implementation.
// ---------------------------------------------------------------------------

impl AxisKind {
    fn from_letter(letter: u8) -> (r: Option<Self>)
        ensures
            r == spec_axis_kind(letter),
    {
        let upper = ascii_upper(letter);
        if upper == 76 {
            Some(Self::Linear)
        } else if upper == 82 {
            Some(Self::Rotate)
        } else if upper == 86 {
            Some(Self::Vibrate)
        } else if upper == 65 {
            Some(Self::Aux)
        } else {
            None
        }
    }

    /// The TCode letter for this family.
    pub fn letter(self) -> (r: u8)
        ensures
            r == spec_letter(self),
    {
        match self {
            Self::Linear => 76,
            Self::Rotate => 82,
            Self::Vibrate => 86,
            Self::Aux => 65,
        }
    }
}

fn ascii_upper(b: u8) -> (r: u8)
    ensures
        r == to_upper(b),
{
    if b >= 97 && b <= 122 {
        b - 32
    } else {
        b
    }
}

fn is_ascii_digit(b: u8) -> (r: bool)
    ensures
        r == is_digit(b),
{
    b >= 48 && b <= 57
}

fn is_sep(b: u8) -> (r: bool)
    ensures
        r == is_separator(b),
{
    b == 32 || b == 9 || b == 13 || b == 10
}

/// Split `input` after its leading run of digits.
fn split_digits(input: &[u8]) -> (r: (&[u8], &[u8]))
    ensures
        r.0@ == input@.take(digits_end(input@, 0)),
        r.1@ == input@.skip(digits_end(input@, 0)),
        all_digits(r.0@),
        r.1@.len() > 0 ==> !is_digit(r.1@[0]),
{
    let mut n: usize = 0;
    while n < input.len() && is_ascii_digit(input[n])
        invariant
            0 <= n <= input@.len(),
            digits_end(input@, 0) == digits_end(input@, n as int),
        decreases input@.len() - n,
    {
        n = n + 1;
    }
    proof {
        lemma_digits_end_bounds(input@, 0);
        assert(all_digits(input@.take(n as int))) by {
            assert forall|k: int| 0 <= k < n implies #[trigger] is_digit(input@.take(n as int)[k]) by {
                assert(is_digit(input@[k]));
            }
        }
    }
    input.split_at(n)
}

/// A value grows when digits are appended to it.
proof fn lemma_dec_value_prefix(s: Seq<u8>, k: int)
    requires
        all_digits(s),
        0 <= k <= s.len(),
    ensures
        dec_value(s.take(k)) <= dec_value(s),
    decreases s.len() - k,
{
    if k < s.len() {
        lemma_dec_value_prefix(s, k + 1);
        let p = s.take(k + 1);
        assert(p.drop_last() =~= s.take(k));
        assert(is_digit(s[k]));
        crate::value::lemma_dec_value_bound(s.take(k));
        assert(all_digits(s.take(k))) by {
            assert forall|j: int| 0 <= j < k implies #[trigger] is_digit(s.take(k)[j]) by {
                assert(is_digit(s[j]));
            }
        }
        crate::value::lemma_dec_value_bound(s.take(k));
    } else {
        assert(s.take(k) =~= s);
    }
}

fn parse_u32(digits: &[u8]) -> (r: Option<u32>)
    ensures
        r == spec_parse_u32(digits@),
{
    if digits.len() == 0 || digits.len() > 10 {
        return None;
    }
    let mut value: u32 = 0;
    let mut i: usize = 0;
    while i < digits.len()
        invariant
            1 <= digits@.len() <= 10,
            0 <= i <= digits@.len(),
            all_digits(digits@.take(i as int)),
            value as int == dec_value(digits@.take(i as int)),
        decreases digits@.len() - i,
    {
        let d = digits[i];
        if !is_ascii_digit(d) {
            assert(!all_digits(digits@)) by {
                assert(!is_digit(digits@[i as int]));
            }
            return None;
        }
        let ghost next = digits@.take(i + 1);
        proof {
            assert(next.drop_last() =~= digits@.take(i as int));
            assert(all_digits(next)) by {
                assert forall|k: int| 0 <= k < next.len() implies #[trigger] is_digit(next[k]) by {
                    if k < i {
                        assert(is_digit(digits@.take(i as int)[k]));
                    }
                }
            }
        }
        let digit: u32 = (d - 48) as u32;
        if value > 429_496_729 || (value == 429_496_729 && digit > 5) {
            proof {
                assert(dec_value(next) > u32::MAX);
                if all_digits(digits@) {
                    lemma_dec_value_prefix(digits@, i + 1);
                }
            }
            return None;
        }
        value = value * 10 + digit;
        i = i + 1;
    }
    assert(digits@.take(digits@.len() as int) =~= digits@);
    Some(value)
}

fn parse_device(rest: &[u8]) -> (r: Result<Command, ParseError>)
    ensures
        r == spec_parse_device(rest@),
{
    let n = rest.len();
    if n == 1 && rest[0] == 48 {
        Ok(Command::Device(DeviceCommand::Identify))
    } else if n == 1 && rest[0] == 49 {
        Ok(Command::Device(DeviceCommand::Version))
    } else if n == 1 && rest[0] == 50 {
        Ok(Command::Device(DeviceCommand::ListAxes))
    } else if n == 4 && ascii_upper(rest[0]) == 83 && ascii_upper(rest[1]) == 84 && ascii_upper(
        rest[2],
    ) == 79 && ascii_upper(rest[3]) == 80 {
        Ok(Command::Device(DeviceCommand::Stop))
    } else {
        Err(ParseError::UnknownDeviceCommand)
    }
}

fn parse_modifier(r: &[u8]) -> (res: Result<Modifier, ParseError>)
    ensures
        res == spec_parse_modifier(r@),
{
    if r.len() == 0 {
        return Ok(Modifier::Immediate);
    }
    let m = r[0];
    let rest = &r[1..r.len()];
    assert(rest@ =~= r@.drop_first());
    let (digits, tail) = split_digits(rest);
    proof {
        lemma_digits_end_bounds(rest@, 0);
    }
    if tail.len() != 0 {
        return Err(ParseError::Trailing);
    }
    assert(digits@ =~= rest@);
    let value = match parse_u32(digits) {
        Some(v) => v,
        None => {
            return Err(ParseError::BadModifier);
        },
    };
    let upper = ascii_upper(m);
    if upper == 73 {
        Ok(Modifier::Interval { millis: value })
    } else if upper == 83 {
        Ok(Modifier::Speed { per_second: value })
    } else {
        Err(ParseError::BadModifier)
    }
}

fn parse_move(kind: AxisKind, rest: &[u8]) -> (r: Result<Command, ParseError>)
    ensures
        r == spec_parse_move(kind, rest@),
{
    if rest.len() == 0 {
        return Err(ParseError::MissingIndex);
    }
    let idx = rest[0];
    if !is_ascii_digit(idx) {
        return Err(ParseError::MissingIndex);
    }
    let axis = Axis { kind, index: idx - 48 };
    let r1 = &rest[1..rest.len()];
    assert(r1@ =~= rest@.drop_first());
    let (mag, r2) = split_digits(r1);
    let target = match Fraction::from_tcode_digits(mag) {
        Some(t) => t,
        None => {
            return Err(ParseError::BadMagnitude);
        },
    };
    let modifier = match parse_modifier(r2) {
        Ok(m) => m,
        Err(e) => {
            return Err(e);
        },
    };
    Ok(Command::Move { axis, target, modifier })
}

/// Parse a single whitespace-free token.
///
/// # Errors
/// Returns a [`ParseError`] describing the first problem found.
pub fn parse_token(token: &[u8]) -> (r: Result<Command, ParseError>)
    ensures
        r == spec_parse_token(token@),
{
    if token.len() == 0 {
        return Err(ParseError::UnknownPrefix(0));
    }
    let first = token[0];
    let rest = &token[1..token.len()];
    assert(rest@ =~= token@.drop_first());
    if first == 68 || first == 100 {
        return parse_device(rest);
    }
    match AxisKind::from_letter(first) {
        None => Err(ParseError::UnknownPrefix(first)),
        Some(kind) => parse_move(kind, rest),
    }
}

/// The tokens of one TCode line, parsed one at a time with
/// [`Tokens::next`].
///
/// Whitespace (space, tab, CR, LF) separates tokens; empty runs are skipped.
#[derive(Clone, Debug)]
pub struct Tokens<'a> {
    rest: &'a [u8],
}

impl<'a> View for Tokens<'a> {
    type V = Seq<u8>;

    /// The bytes not yet tokenized.
    closed spec fn view(&self) -> Seq<u8> {
        self.rest@
    }
}

impl<'a> Tokens<'a> {
    /// The next token, parsed; `None` once only separators remain.
    pub fn next(&mut self) -> (r: Option<Result<Command, ParseError>>)
        ensures
            match spec_next_token(old(self)@) {
                None => r is None && final(self)@.len() == 0,
                Some((token, tail)) => r == Some(spec_parse_token(token)) && final(self)@ == tail,
            },
    {
        let s = self.rest;
        let n = s.len();
        let mut skip: usize = 0;
        while skip < n && is_sep(s[skip])
            invariant
                n == s@.len(),
                0 <= skip <= n,
                separators_end(s@, 0) == separators_end(s@, skip as int),
            decreases n - skip,
        {
            skip = skip + 1;
        }
        proof {
            lemma_separators_end_bounds(s@, 0);
        }
        if skip == n {
            self.rest = &s[n..n];
            return None;
        }
        let mut end: usize = skip;
        while end < n && !is_sep(s[end])
            invariant
                n == s@.len(),
                skip <= end <= n,
                word_end(s@, skip as int) == word_end(s@, end as int),
            decreases n - end,
        {
            end = end + 1;
        }
        let token = &s[skip..end];
        self.rest = &s[end..n];
        Some(parse_token(token))
    }

    /// Every remaining token, parsed, in order.
    pub fn collect(self) -> (r: Vec<Result<Command, ParseError>>)
        ensures
            r@ == spec_parse_all(self@),
    {
        let mut tokens = self;
        let mut out: Vec<Result<Command, ParseError>> = Vec::new();
        loop
            invariant
                spec_parse_all(self@) == out@ + spec_parse_all(tokens@),
            decreases tokens@.len(),
        {
            let ghost before = tokens@;
            proof {
                lemma_next_token_progress(before);
            }
            match tokens.next() {
                None => {
                    assert(out@ + spec_parse_all(before) =~= out@);
                    return out;
                },
                Some(item) => {
                    out.push(item);
                    assert(spec_parse_all(before) == seq![item] + spec_parse_all(tokens@));
                    assert(out@ + spec_parse_all(tokens@) =~= (out@.drop_last() + seq![item])
                        + spec_parse_all(tokens@));
                },
            }
        }
    }
}

/// Split a line into tokens and parse each one.
pub fn parse_line(line: &[u8]) -> (r: Tokens<'_>)
    ensures
        r@ == line@,
{
    Tokens { rest: line }
}

impl DeviceCommand {
    /// Canonical response text for query commands, without line ending.
    /// `Stop` has no response; `ListAxes` is answered with the governor's
    /// axis list.
    pub fn reply(self, firmware: &'static str) -> (r: Option<&'static str>)
        ensures
            match self {
                DeviceCommand::Identify => r matches Some(text) && text@ == "TCode v0.3"@,
                DeviceCommand::Version => r == Some(firmware),
                _ => r is None,
            },
    {
        match self {
            Self::Identify => Some("TCode v0.3"),
            Self::Version => Some(firmware),
            Self::ListAxes | Self::Stop => None,
        }
    }
}

} // verus!
