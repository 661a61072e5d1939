//! Integer helpers for turning ADC counts into engineering units.
//!
//! Kept in the library rather than the firmware so the conversions that feed
//! the governor's fault thresholds are proved along with it.

use vstd::prelude::*;

verus! {

/// Integer division rounding toward zero (Rust's `/` on signed integers),
/// for a positive divisor.
pub open spec fn trunc_div(a: int, b: int) -> int {
    if a >= 0 {
        a / b
    } else {
        -((-a) / b)
    }
}

/// The value at `x` on the straight line through `a` and `b`, rounded toward
/// `a`'s value; `None` when the points are not increasing in `x`, when the
/// product `(yb - ya) * (x - xa)` leaves the 32-bit range, or when the result
/// does not fit an `i16`.
pub open spec fn segment_value(a: (u16, i16), b: (u16, i16), x: u16) -> Option<i16> {
    let span = b.0 - a.0;
    if span <= 0 {
        None
    } else {
        let p = (b.1 - a.1) * (x - a.0);
        if p < i32::MIN || p > i32::MAX {
            None
        } else {
            let y = a.1 + trunc_div(p, span);
            if i16::MIN <= y <= i16::MAX {
                Some(y as i16)
            } else {
                None
            }
        }
    }
}

/// Interpolation on the first segment, from point `i` on, whose `x` range
/// holds `x`.
pub open spec fn interpolate_from(t: Seq<(u16, i16)>, x: u16, i: int) -> Option<i16>
    decreases t.len() - i,
{
    if i < 0 || i + 1 >= t.len() {
        None
    } else if t[i].0 <= x <= t[i + 1].0 {
        segment_value(t[i], t[i + 1], x)
    } else {
        interpolate_from(t, x, i + 1)
    }
}

/// Table lookup with linear interpolation: `None` outside the table's `x`
/// range, the table's own value at either end, and otherwise the value on
/// the first segment that holds `x`.
pub open spec fn spec_interpolate(t: Seq<(u16, i16)>, x: u16) -> Option<i16> {
    if t.len() == 0 {
        None
    } else if x < t[0].0 || x > t.last().0 {
        None
    } else if x == t.last().0 {
        Some(t.last().1)
    } else if x == t[0].0 {
        Some(t[0].1)
    } else {
        interpolate_from(t, x, 0)
    }
}

/// `count * full_scale / max` when `max` is not zero and the quotient fits.
pub open spec fn spec_scale(count: u16, full_scale: u32, max: u16) -> Option<u32> {
    if max == 0 {
        None
    } else if (count as int * full_scale as int) / max as int <= u32::MAX {
        Some(((count as int * full_scale as int) / max as int) as u32)
    } else {
        None
    }
}

/// Linear interpolation over a table of `(x, y)` points with strictly
/// increasing `x`. Returns `None` if `x` is outside the table (which callers
/// should treat as a sensor fault: open or shorted probe).
pub fn interpolate(table: &[(u16, i16)], x: u16) -> (r: Option<i16>)
    ensures
        r == spec_interpolate(table@, x),
{
    let n = table.len();
    if n == 0 {
        return None;
    }
    let (x0, y0) = table[0];
    let (xn, yn) = table[n - 1];
    if x < x0 || x > xn {
        return None;
    }
    if x == xn {
        return Some(yn);
    }
    if x == x0 {
        return Some(y0);
    }
    assert(table@[0] == (x0, y0) && table@.last() == (xn, yn));
    // Find the segment [lo, hi] containing x.
    let mut i: usize = 0;
    while i + 1 < n
        invariant
            n == table@.len(),
            0 <= i < n,
            spec_interpolate(table@, x) == interpolate_from(table@, x, i as int),
        decreases n - i,
    {
        let (xa, ya) = table[i];
        let (xb, yb) = table[i + 1];
        if xa <= x && x <= xb {
            assert(table@[i as int] == (xa, ya) && table@[i + 1] == (xb, yb));
            return segment(xa, ya, xb, yb, x);
        }
        i = i + 1;
    }
    None
}

/// The exact computation of `segment_value`.
fn segment(xa: u16, ya: i16, xb: u16, yb: i16, x: u16) -> (r: Option<i16>)
    ensures
        r == segment_value((xa, ya), (xb, yb), x),
{
    let span: i64 = xb as i64 - xa as i64;
    if span <= 0 {
        return None;
    }
    let dx: i64 = x as i64 - xa as i64;
    let dy: i64 = yb as i64 - ya as i64;
    assert(-65_536 <= dy <= 65_536 && -65_536 <= dx <= 65_536);
    assert(-65_536 * 65_536 <= dy * dx <= 65_536 * 65_536) by (nonlinear_arith)
        requires
            -65_536 <= dy <= 65_536,
            -65_536 <= dx <= 65_536,
    ;
    let p: i64 = dy * dx;
    if p < i32::MIN as i64 || p > i32::MAX as i64 {
        return None;
    }
    let delta: i64 = if p >= 0 {
        p / span
    } else {
        -((-p) / span)
    };
    assert(-(i32::MAX as int) - 1 <= delta <= i32::MAX) by (nonlinear_arith)
        requires
            delta == trunc_div(p as int, span as int),
            i32::MIN <= p <= i32::MAX,
            span >= 1,
    ;
    let y: i64 = ya as i64 + delta;
    if y < i16::MIN as i64 || y > i16::MAX as i64 {
        return None;
    }
    Some(y as i16)
}

/// Scale a raw ADC count to engineering units: `count * full_scale / max`.
/// Returns `None` if `max` is zero.
pub fn scale(count: u16, full_scale: u32, max: u16) -> (r: Option<u32>)
    ensures
        r == spec_scale(count, full_scale, max),
{
    assert(count as int * full_scale as int <= 65_535 * 4_294_967_295) by (nonlinear_arith)
        requires
            count <= 65_535,
            full_scale <= 4_294_967_295,
    ;
    assert(0 <= count as int * full_scale as int) by (nonlinear_arith);
    let num: u64 = count as u64 * full_scale as u64;
    if max == 0 {
        return None;
    }
    let q: u64 = num / max as u64;
    if q > u32::MAX as u64 {
        return None;
    }
    Some(q as u32)
}

/// A quotient `m * dx / span` of a proportion `dx / span <= 1` lies between
/// zero and `m`.
proof fn lemma_proportion(m: int, dx: int, span: int)
    requires
        m >= 0,
        0 <= dx <= span,
        span > 0,
    ensures
        0 <= (m * dx) / span <= m,
{
    assert(0 <= m * dx <= m * span) by (nonlinear_arith)
        requires
            m >= 0,
            0 <= dx <= span,
    ;
    assert((m * span) / span == m) by (nonlinear_arith)
        requires
            span > 0,
    ;
    assert((m * dx) / span <= (m * span) / span) by (nonlinear_arith)
        requires
            m * dx <= m * span,
            span > 0,
    ;
    assert(0 <= (m * dx) / span) by (nonlinear_arith)
        requires
            m * dx >= 0,
            span > 0,
    ;
}

/// A segment value lies between the segment's two `y` values.
proof fn lemma_segment_between(a: (u16, i16), b: (u16, i16), x: u16)
    requires
        a.0 <= x <= b.0,
    ensures
        segment_value(a, b, x) matches Some(y) ==> (a.1 <= y <= b.1 || b.1 <= y <= a.1),
{
    let span = b.0 - a.0;
    if span > 0 {
        let dx = x - a.0;
        let dy = b.1 - a.1;
        if dy >= 0 {
            lemma_proportion(dy, dx, span);
            assert(dy * dx >= 0) by (nonlinear_arith)
                requires
                    dy >= 0,
                    dx >= 0,
            ;
        } else {
            lemma_proportion(-dy, dx, span);
            assert((-dy) * dx == -(dy * dx)) by (nonlinear_arith);
            assert((-dy) * dx >= 0) by (nonlinear_arith)
                requires
                    dy < 0,
                    dx >= 0,
            ;
            if dy * dx < 0 {
            } else {
                assert(dy * dx == 0);
            }
        }
    }
}

proof fn lemma_interpolate_from_bounded(t: Seq<(u16, i16)>, x: u16, i: int)
    requires
        0 <= i,
    ensures
        interpolate_from(t, x, i) matches Some(y) ==> (exists|j: int|
            0 <= j < t.len() && #[trigger] t[j].1 <= y) && (exists|k: int|
            0 <= k < t.len() && y <= #[trigger] t[k].1),
    decreases t.len() - i,
{
    if i + 1 < t.len() {
        if t[i].0 <= x <= t[i + 1].0 {
            lemma_segment_between(t[i], t[i + 1], x);
            if let Some(y) = segment_value(t[i], t[i + 1], x) {
                if t[i].1 <= y <= t[i + 1].1 {
                    assert(t[i].1 <= y);
                    assert(y <= t[i + 1].1);
                } else {
                    assert(t[i + 1].1 <= y);
                    assert(y <= t[i].1);
                }
            }
        } else {
            lemma_interpolate_from_bounded(t, x, i + 1);
        }
    }
}

/// Table interpolation stays within the table's `y` range: whatever it
/// returns is no smaller than some `y` of the table and no larger than
/// some `y` of the table.
pub proof fn lemma_interpolate_bounded(t: Seq<(u16, i16)>, x: u16)
    ensures
        spec_interpolate(t, x) matches Some(y) ==> (exists|j: int|
            0 <= j < t.len() && #[trigger] t[j].1 <= y) && (exists|k: int|
            0 <= k < t.len() && y <= #[trigger] t[k].1),
{
    if t.len() > 0 && !(x < t[0].0 || x > t.last().0) {
        if x == t.last().0 {
            assert(t[t.len() - 1].1 <= t.last().1);
        } else if x == t[0].0 {
            assert(t[0].1 <= t[0].1);
        } else {
            lemma_interpolate_from_bounded(t, x, 0);
        }
    }
}

} // verus!
