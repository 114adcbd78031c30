//! Colour stops and the gradient that renders the heat map.
//!
//! A gradient maps a normalized heat, the exact fraction
//! `heat_num / heat_den` of `[0, 1]`, to a colour by piecewise-linear
//! interpolation between stops.  With `n` stops, `[0, 1]` splits into
//! `n - 1` equal segments; the input picks a segment and is interpolated
//! between its two bounding stops.  A stop is a point of three integer
//! channels in whatever colour space the caller interpolates in - plain
//! RGB channels, or the coordinates of a perceptually uniform space such
//! as a lightness-chroma pair scaled to integers; the gradient itself is
//! space-agnostic, and conversion in and out of the space stays with the
//! caller.
//!
//! The interpolation is exact integer arithmetic: channel
//! `(a * (den - t) + b * t) / den` for the local fraction `t / den`, which
//! hits `a` at `t = 0` and `b` at `t = den` exactly, stays between the two,
//! and moves by at most one unit more than the exact rational does.

use crate::score::{abs_diff, lemma_div_ge_bound, lemma_div_le_bound};
use vstd::arithmetic::div_mod::{
    lemma_div_is_ordered, lemma_div_multiples_vanish, lemma_div_pos_is_pos,
    lemma_fundamental_div_mod, lemma_mod_pos_bound,
};
use vstd::prelude::*;

verus! {

/// Largest supported heat denominator.
pub const MAX_HEAT_DEN: u64 = 1_000_000_000;

/// Largest supported number of gradient stops.
pub const MAX_STOPS: u64 = 4096;

/// An RGB colour with one byte per channel.
#[derive(Clone, Copy, Debug, PartialEq, Eq, Structural)]
pub struct Rgb {
    pub red: u8,
    pub green: u8,
    pub blue: u8,
}

/// The RGB colour written as the hex code `0xRRGGBB`.
pub fn rgb_from_hex(hex: u32) -> (c: Rgb)
    ensures
        c.red as int == (hex as int / 65536) % 256,
        c.green as int == (hex as int / 256) % 256,
        c.blue as int == hex as int % 256,
{
    let red = ((hex / 65536) % 256) as u8;
    let green = ((hex / 256) % 256) as u8;
    let blue = (hex % 256) as u8;
    Rgb { red, green, blue }
}

/// A gradient stop: three integer channels in the caller's colour space.
#[derive(Clone, Copy, Debug, PartialEq, Eq, Structural)]
pub struct ColorPoint {
    pub c0: u32,
    pub c1: u32,
    pub c2: u32,
}

/// Linear interpolation from `a` (at `t = 0`) to `b` (at `t = den`), as
/// the floor of the exact rational `a + (b - a) * t / den`.
pub open spec fn lerp(a: int, b: int, t: int, den: int) -> int {
    (a * (den - t) + b * t) / den
}

/// The heat clamped into `[0, den]`.
pub open spec fn clamp_heat(num: int, den: int) -> int {
    if num > den {
        den
    } else {
        num
    }
}

/// Index of the lower stop of the segment that holds heat `h / den` among
/// `n - 1` equal segments (`n >= 2` stops): `floor(h * (n - 1) / den)`,
/// with heat 1 folded into the last segment.
pub open spec fn gradient_lower(h: int, den: int, n: int) -> int {
    let seg = h * (n - 1) / den;
    if seg > n - 2 {
        n - 2
    } else {
        seg
    }
}

/// Numerator of the local interpolation fraction `t / den` of heat
/// `h / den` within its segment.
pub open spec fn gradient_t(h: int, den: int, n: int) -> int {
    h * (n - 1) - gradient_lower(h, den, n) * den
}

/// The three channels of the gradient of `stops` at heat `num / den`:
/// black for no stop, the stop itself for one, and otherwise the linear
/// interpolation between the two stops bounding the heat's segment.
pub open spec fn gradient(num: int, den: int, stops: Seq<ColorPoint>) -> (int, int, int) {
    let n = stops.len() as int;
    if n == 0 {
        (0, 0, 0)
    } else if n == 1 {
        (stops[0].c0 as int, stops[0].c1 as int, stops[0].c2 as int)
    } else {
        let h = clamp_heat(num, den);
        let lo = gradient_lower(h, den, n);
        let t = gradient_t(h, den, n);
        (
            lerp(stops[lo].c0 as int, stops[lo + 1].c0 as int, t, den),
            lerp(stops[lo].c1 as int, stops[lo + 1].c1 as int, t, den),
            lerp(stops[lo].c2 as int, stops[lo + 1].c2 as int, t, den),
        )
    }
}

/// The segment index stays among the `n - 1` segments and the local
/// fraction stays within `[0, 1]`.
pub proof fn lemma_gradient_segment_bounds(h: int, den: int, n: int)
    requires
        0 <= h <= den,
        1 <= den,
        2 <= n,
    ensures
        0 <= gradient_lower(h, den, n) <= n - 2,
        0 <= gradient_t(h, den, n) <= den,
{
    let x = h * (n - 1);
    let seg = x / den;
    assert(0 <= x && x <= (n - 1) * den) by (nonlinear_arith)
        requires
            0 <= h <= den,
            2 <= n,
            x == h * (n - 1),
    ;
    lemma_div_pos_is_pos(x, den);
    lemma_div_le_bound(x, n - 1, den);
    let lo = gradient_lower(h, den, n);
    let t = gradient_t(h, den, n);
    lemma_fundamental_div_mod(x, den);
    lemma_mod_pos_bound(x, den);
    if seg > n - 2 {
        // the only segment index past n - 2 is n - 1, reached by heat 1 alone
        assert(den * seg <= x);
        assert(x - (n - 2) * den <= den && den <= x - (n - 2) * den) by (nonlinear_arith)
            requires
                den * seg <= x,
                seg == n - 1,
                x <= (n - 1) * den,
                1 <= den,
        ;
    } else {
        // the local numerator is the division's remainder
        assert(t == x % den) by (nonlinear_arith)
            requires
                x == den * seg + x % den,
                t == x - seg * den,
        ;
    }
}

/// Interpolation is exact at its two ends: `t = 0` gives `a`, `t = den`
/// gives `b`.
pub proof fn lemma_lerp_exact(a: int, b: int, den: int)
    requires
        1 <= den,
    ensures
        lerp(a, b, 0, den) == a,
        lerp(a, b, den, den) == b,
{
    assert(a * (den - 0) + b * 0 == den * a) by (nonlinear_arith);
    lemma_div_multiples_vanish(a, den);
    assert(a * (den - den) + b * den == den * b) by (nonlinear_arith);
    lemma_div_multiples_vanish(b, den);
}

/// Interpolation never leaves the band between its two ends.
pub proof fn lemma_lerp_bounds(a: int, b: int, t: int, den: int)
    requires
        0 <= a,
        0 <= b,
        0 <= t <= den,
        1 <= den,
    ensures
        a <= b ==> a <= lerp(a, b, t, den) <= b,
        b <= a ==> b <= lerp(a, b, t, den) <= a,
{
    let num = a * (den - t) + b * t;
    if a <= b {
        assert(a * den <= num && num <= b * den) by (nonlinear_arith)
            requires
                a <= b,
                0 <= a,
                0 <= t <= den,
                num == a * (den - t) + b * t,
        ;
        lemma_div_ge_bound(num, a, den);
        lemma_div_le_bound(num, b, den);
    } else {
        assert(b * den <= num && num <= a * den) by (nonlinear_arith)
            requires
                b <= a,
                0 <= b,
                0 <= t <= den,
                num == a * (den - t) + b * t,
        ;
        lemma_div_ge_bound(num, b, den);
        lemma_div_le_bound(num, a, den);
    }
}

/// Within a segment the interpolation is continuous: moving the local
/// fraction by `t2 - t1` moves a channel by at most the exact rational
/// step `|b - a| * (t2 - t1) / den`, plus one unit of rounding.
pub proof fn lemma_lerp_lipschitz(a: int, b: int, t1: int, t2: int, den: int)
    requires
        0 <= a,
        0 <= b,
        0 <= t1 <= t2 <= den,
        1 <= den,
    ensures
        abs_diff(lerp(a, b, t2, den), lerp(a, b, t1, den)) <= abs_diff(a, b) * (t2 - t1) / den + 1,
{
    let num1 = a * (den - t1) + b * t1;
    let num2 = a * (den - t2) + b * t2;
    let q1 = num1 / den;
    let q2 = num2 / den;
    let d = abs_diff(a, b) * (t2 - t1);
    let qd = d / den;
    assert(0 <= num1 && 0 <= num2 && 0 <= d && abs_diff(num2, num1) == d) by (nonlinear_arith)
        requires
            0 <= a,
            0 <= b,
            0 <= t1 <= t2 <= den,
            num1 == a * (den - t1) + b * t1,
            num2 == a * (den - t2) + b * t2,
            d == abs_diff(a, b) * (t2 - t1),
    ;
    lemma_fundamental_div_mod(num1, den);
    lemma_mod_pos_bound(num1, den);
    lemma_fundamental_div_mod(num2, den);
    lemma_mod_pos_bound(num2, den);
    lemma_fundamental_div_mod(d, den);
    lemma_mod_pos_bound(d, den);
    assert(abs_diff(q2, q1) <= qd + 1) by (nonlinear_arith)
        requires
            num1 == den * q1 + num1 % den,
            num2 == den * q2 + num2 % den,
            d == den * qd + d % den,
            0 <= num1 % den < den,
            0 <= num2 % den < den,
            0 <= d % den < den,
            abs_diff(num2, num1) == d,
            1 <= den,
    ;
}

/// Between two stop boundaries the gradient is continuous: two heats of
/// the same segment differ per channel by at most the segment's channel
/// span times the heat difference, plus one unit of rounding.  Together
/// with [`lemma_gradient_at_stop`], which pins the boundaries themselves,
/// this makes the whole gradient continuous: a small change of heat never
/// jumps the colour.
pub proof fn lemma_gradient_continuous_in_segment(
    num1: int,
    num2: int,
    den: int,
    stops: Seq<ColorPoint>,
)
    requires
        1 <= den,
        2 <= stops.len(),
        0 <= num1 <= num2 <= den,
        gradient_lower(num1, den, stops.len() as int) == gradient_lower(
            num2,
            den,
            stops.len() as int,
        ),
    ensures
        ({
            let n = stops.len() as int;
            let lo = gradient_lower(num1, den, n);
            let step = (num2 - num1) * (n - 1);
            let (a0, a1, a2) = gradient(num1, den, stops);
            let (b0, b1, b2) = gradient(num2, den, stops);
            &&& abs_diff(b0, a0) <= abs_diff(stops[lo].c0 as int, stops[lo + 1].c0 as int) * step
                / den + 1
            &&& abs_diff(b1, a1) <= abs_diff(stops[lo].c1 as int, stops[lo + 1].c1 as int) * step
                / den + 1
            &&& abs_diff(b2, a2) <= abs_diff(stops[lo].c2 as int, stops[lo + 1].c2 as int) * step
                / den + 1
        }),
{
    let n = stops.len() as int;
    let lo = gradient_lower(num1, den, n);
    let t1 = gradient_t(num1, den, n);
    let t2 = gradient_t(num2, den, n);
    let step = (num2 - num1) * (n - 1);
    lemma_gradient_segment_bounds(num1, den, n);
    lemma_gradient_segment_bounds(num2, den, n);
    assert(t2 - t1 == step && t1 <= t2) by (nonlinear_arith)
        requires
            t1 == num1 * (n - 1) - lo * den,
            t2 == num2 * (n - 1) - lo * den,
            step == (num2 - num1) * (n - 1),
            num1 <= num2,
            2 <= n,
            0 <= t1,
            t2 <= den,
    ;
    lemma_lerp_lipschitz(stops[lo].c0 as int, stops[lo + 1].c0 as int, t1, t2, den);
    lemma_lerp_lipschitz(stops[lo].c1 as int, stops[lo + 1].c1 as int, t1, t2, den);
    lemma_lerp_lipschitz(stops[lo].c2 as int, stops[lo + 1].c2 as int, t1, t2, den);
}

/// Heats that land exactly on a stop get exactly that stop's channels:
/// with `n` stops, heat `k / (n - 1)` is stop `k`, and in particular heat
/// 0 is the first stop and heat 1 the last.
pub proof fn lemma_gradient_at_stop(num: int, den: int, stops: Seq<ColorPoint>, k: int)
    requires
        1 <= den,
        2 <= stops.len(),
        0 <= num <= den,
        0 <= k < stops.len(),
        num * (stops.len() - 1) == k * den,
    ensures
        gradient(num, den, stops) == (stops[k].c0 as int, stops[k].c1 as int, stops[k].c2 as int),
{
    let n = stops.len() as int;
    let x = num * (n - 1);
    let seg = x / den;
    assert(x == den * k) by (nonlinear_arith)
        requires
            x == k * den,
    ;
    lemma_div_multiples_vanish(k, den);
    assert(seg == k);
    let lo = gradient_lower(num, den, n);
    let t = gradient_t(num, den, n);
    if k <= n - 2 {
        assert(lo == k && t == 0) by (nonlinear_arith)
            requires
                lo == k,
                t == x - k * den,
                x == k * den,
        ;
        lemma_lerp_exact(stops[k].c0 as int, stops[k + 1].c0 as int, den);
        lemma_lerp_exact(stops[k].c1 as int, stops[k + 1].c1 as int, den);
        lemma_lerp_exact(stops[k].c2 as int, stops[k + 1].c2 as int, den);
    } else {
        assert(lo == n - 2 && t == den) by (nonlinear_arith)
            requires
                lo == n - 2,
                t == x - (n - 2) * den,
                x == (n - 1) * den,
        ;
        lemma_lerp_exact(stops[n - 2].c0 as int, stops[n - 1].c0 as int, den);
        lemma_lerp_exact(stops[n - 2].c1 as int, stops[n - 1].c1 as int, den);
        lemma_lerp_exact(stops[n - 2].c2 as int, stops[n - 1].c2 as int, den);
    }
}

/// Heat 0 gives exactly the first stop, heat 1 exactly the last.
pub proof fn lemma_gradient_at_ends(den: int, stops: Seq<ColorPoint>)
    requires
        1 <= den,
        1 <= stops.len(),
    ensures
        gradient(0, den, stops) == (stops[0].c0 as int, stops[0].c1 as int, stops[0].c2 as int),
        gradient(den, den, stops) == (
            stops[stops.len() - 1].c0 as int,
            stops[stops.len() - 1].c1 as int,
            stops[stops.len() - 1].c2 as int,
        ),
{
    let n = stops.len() as int;
    if n >= 2 {
        assert(0 * (n - 1) == 0 * den) by (nonlinear_arith);
        lemma_gradient_at_stop(0, den, stops, 0);
        assert(den * (n - 1) == (n - 1) * den) by (nonlinear_arith);
        lemma_gradient_at_stop(den, den, stops, n - 1);
    }
}

/// One interpolated channel: the exact `lerp(a, b, t, den)`.
fn lerp_channel(a: u32, b: u32, t: u64, den: u64) -> (r: u32)
    requires
        1 <= den <= MAX_HEAT_DEN,
        t <= den,
    ensures
        r == lerp(a as int, b as int, t as int, den as int),
{
    proof {
        let hi: int = if a >= b {
            a as int
        } else {
            b as int
        };
        assert((a as int) * (den - t) + (b as int) * (t as int) <= hi * den <= 0xffff_ffff
            * 1_000_000_000) by (nonlinear_arith)
            requires
                0 <= t <= den <= 1_000_000_000u64,
                a <= 0xffff_ffffu32,
                b <= 0xffff_ffffu32,
                hi >= a,
                hi >= b,
                hi <= 0xffff_ffffu32,
        ;
        lemma_div_le_bound((a as int) * (den - t) + (b as int) * (t as int), hi, den as int);
        lemma_div_pos_is_pos((a as int) * (den - t) + (b as int) * (t as int), den as int);
    }
    let num = (a as u64) * (den - t) + (b as u64) * t;
    (num / den) as u32
}

/// The colour of the normalized heat `heat_num / heat_den` under the
/// gradient of `stops`: the channels of `gradient(heat_num, heat_den,
/// stops@)`.  Heats past 1 are clamped; no stops give black, one stop
/// gives that stop unchanged.
pub fn heat_to_color(heat_num: u64, heat_den: u64, stops: &Vec<ColorPoint>) -> (c: ColorPoint)
    requires
        1 <= heat_den <= MAX_HEAT_DEN,
        stops@.len() <= MAX_STOPS,
    ensures
        ({
            let (r0, r1, r2) = gradient(heat_num as int, heat_den as int, stops@);
            c.c0 == r0 && c.c1 == r1 && c.c2 == r2
        }),
{
    let n = stops.len();
    if n == 0 {
        return ColorPoint { c0: 0, c1: 0, c2: 0 };
    }
    if n == 1 {
        return stops[0];
    }
    let h = if heat_num > heat_den {
        heat_den
    } else {
        heat_num
    };
    proof {
        assert((h as int) * (n - 1) <= 1_000_000_000 * 4095 && (n - 2) * (heat_den as int)
            <= 4094 * 1_000_000_000) by (nonlinear_arith)
            requires
                h <= 1_000_000_000u64,
                heat_den <= 1_000_000_000u64,
                2 <= n <= 4096usize,
        ;
        lemma_gradient_segment_bounds(h as int, heat_den as int, n as int);
    }
    let prod = h * ((n - 1) as u64);
    let seg = prod / heat_den;
    let lo = if seg > (n - 2) as u64 {
        (n - 2) as u64
    } else {
        seg
    };
    proof {
        assert(lo as int == gradient_lower(h as int, heat_den as int, n as int));
        assert(prod - lo * heat_den == gradient_t(h as int, heat_den as int, n as int));
    }
    let t = prod - lo * heat_den;
    let lo_idx = lo as usize;
    let a = stops[lo_idx];
    let b = stops[lo_idx + 1];
    let c0 = lerp_channel(a.c0, b.c0, t, heat_den);
    let c1 = lerp_channel(a.c1, b.c1, t, heat_den);
    let c2 = lerp_channel(a.c2, b.c2, t, heat_den);
    ColorPoint { c0, c1, c2 }
}

} // verus!
