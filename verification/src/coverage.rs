//! What the frame of a plan needs, and that the bitrate of the plan covers it.
use crate::double;
use crate::double::Real;
use crate::plan;
use crate::plan::{
    law_kbps_bounds, law_output_fits, law_shrunk_frame_is_covered, lemma_boxed_within,
    lemma_budget_range, lemma_factor_dropped, lemma_one_is_huge, lemma_products_ordered,
    lemma_quotient_excess, lemma_rounding, MediaInfo, RateControl, Settings,
};
use vstd::prelude::*;

verus! {

/// The steps in which the bitrate of `w * h` pixels is reckoned, each rounded,
/// in units: the pixels, those of a second at `f` units of frames, their bits
/// at `c` units for each, and those in thousands.
spec fn steps(w: nat, h: nat, f: nat, c: nat) -> (nat, nat, nat, nat) {
    let o = double::one();
    let pixels = double::nearest(w * h * o, 1);
    let rate = double::nearest(pixels * f, o);
    let bits = double::nearest(rate * c, o);
    (pixels, rate, bits, double::nearest(bits, 1000))
}

/// Whether all steps stay in the range of numbers.
spec fn in_range(w: nat, h: nat, f: nat, c: nat) -> bool {
    let (_, rate, bits, kilo) = steps(w, h, f, c);
    rate < double::overflow() && bits < double::overflow() && kilo < double::overflow()
}

/// A bitrate comes to its last step, or to infinity where a step is out of
/// range.
proof fn lemma_steps(w: nat, h: nat, f: nat, c: nat)
    requires
        0 < w <= u32::MAX,
        0 < h <= u32::MAX,
        f > 0,
        c > 0,
    ensures
        plan::pixel_kbps(w as int, h as int, Real::Finite(false, f), Real::Finite(false, c))
            == if in_range(w, h, f, c) {
            Real::Finite(false, steps(w, h, f, c).3)
        } else {
            Real::Infinite(false)
        },
        steps(w, h, f, c).0 >= double::one(),
{
    reveal(plan::pixel_kbps);
    let o = double::one();
    lemma_one_is_huge();
    double::lemma_whole_exact(w);
    double::lemma_whole_exact(h);
    double::lemma_whole_exact(1000);
    let (pixels, rate, bits, kilo) = steps(w, h, f, c);
    assert((w * o) * (h * o) == o * (w * h * o)) by (nonlinear_arith);
    assert(o * 1 == o);
    double::lemma_nearest_scaled(w * h * o, 1, o);
    assert(1 <= w * h <= 0x1_0000_0000 * 0x1_0000_0000) by (nonlinear_arith)
        requires
            1 <= w <= 0x1_0000_0000,
            1 <= h <= 0x1_0000_0000,
    ;
    let one = vstd::arithmetic::power2::pow2(1074);
    let most: nat = 0x1_0000_0000_0000_0000;
    assert(1 * (1 * one) <= w * h * o <= 1 * (most * o)) by (nonlinear_arith)
        requires
            1 <= w * h <= most,
            one == o,
    ;
    double::lemma_nearest_at_least(w * h * o, 1, 1, 1074);
    vstd::arithmetic::power2::lemma_pow2_adds(64, 1074);
    vstd::arithmetic::power2::lemma2_to64();
    vstd::arithmetic::power2::lemma2_to64_rest();
    double::lemma_nearest_at_most(w * h * o, 1, 1, 1138);
    double::lemma_nearest_scaled(bits, 1000, o);
    assert(bits * o == o * bits && 1000 * o == o * 1000) by (nonlinear_arith);
}

/// The fourth power of a number.
spec fn fourth(n: nat) -> nat {
    n * n * n * n
}

/// Each step rounded up by no more than `u` to `t`, and what they come to.
proof fn lemma_chain_up(x: nat, f: nat, c: nat, o: nat, y: (nat, nat, nat, nat), t: nat, u: nat)
    requires
        o > 0,
        y.0 * t <= x * o * u,
        o * y.1 * t <= y.0 * f * u,
        o * y.2 * t <= y.1 * c * u,
        1000 * y.3 * t <= y.2 * u,
    ensures
        1000 * o * y.3 * fourth(t) <= x * f * c * fourth(u),
{
    let (a, b, d, e) = y;
    let (xf, xfc) = (x * f, x * f * c);
    lemma_products_ordered(o * b * t, a * f * u, t, t);
    lemma_products_ordered(a * t, x * o * u, f * u, f * u);
    assert(a * f * u * t == (a * t) * (f * u)) by (nonlinear_arith);
    assert((x * o * u) * (f * u) == o * (xf * u * u)) by (nonlinear_arith)
        requires
            xf == x * f,
    ;
    assert(o * b * t * t == o * (b * t * t)) by (nonlinear_arith);
    lemma_factor_dropped(b * t * t, xf * u * u, o);
    lemma_products_ordered(o * d * t, b * c * u, t * t, t * t);
    lemma_products_ordered(b * t * t, xf * u * u, c * u, c * u);
    assert((b * c * u) * (t * t) == (b * t * t) * (c * u)) by (nonlinear_arith);
    assert((xf * u * u) * (c * u) == xfc * u * u * u) by (nonlinear_arith)
        requires
            xfc == xf * c,
    ;
    assert((o * d * t) * (t * t) == o * d * t * t * t) by (nonlinear_arith);
    let w = o * t * t * t;
    lemma_products_ordered(1000 * e * t, d * u, w, w);
    assert((d * u) * w == (o * d * t * t * t) * u) by (nonlinear_arith)
        requires
            w == o * t * t * t,
    ;
    lemma_products_ordered(o * d * t * t * t, xfc * u * u * u, u, u);
    assert((1000 * e * t) * w == 1000 * o * e * (t * t * t * t)) by (nonlinear_arith)
        requires
            w == o * t * t * t,
    ;
    assert(xfc * u * u * u * u == xfc * (u * u * u * u)) by (nonlinear_arith);
}

/// Each step rounded down by no more than `v` to `t`, and what they come to.
proof fn lemma_chain_down(x: nat, f: nat, c: nat, o: nat, y: (nat, nat, nat, nat), t: nat, v: nat)
    requires
        o > 0,
        x * o * v <= y.0 * t,
        y.0 * f * v <= o * y.1 * t,
        y.1 * c * v <= o * y.2 * t,
        y.2 * v <= 1000 * y.3 * t,
    ensures
        x * f * c * fourth(v) <= 1000 * o * y.3 * fourth(t),
{
    let (a, b, d, e) = y;
    let (xf, xfc) = (x * f, x * f * c);
    lemma_products_ordered(a * f * v, o * b * t, t, t);
    lemma_products_ordered(x * o * v, a * t, f * v, f * v);
    assert(a * f * v * t == (a * t) * (f * v)) by (nonlinear_arith);
    assert((x * o * v) * (f * v) == o * (xf * v * v)) by (nonlinear_arith)
        requires
            xf == x * f,
    ;
    assert(o * b * t * t == o * (b * t * t)) by (nonlinear_arith);
    lemma_factor_dropped(xf * v * v, b * t * t, o);
    lemma_products_ordered(b * c * v, o * d * t, t * t, t * t);
    lemma_products_ordered(xf * v * v, b * t * t, c * v, c * v);
    assert((b * c * v) * (t * t) == (b * t * t) * (c * v)) by (nonlinear_arith);
    assert((xf * v * v) * (c * v) == xfc * v * v * v) by (nonlinear_arith)
        requires
            xfc == xf * c,
    ;
    assert((o * d * t) * (t * t) == o * d * t * t * t) by (nonlinear_arith);
    let w = o * t * t * t;
    lemma_products_ordered(d * v, 1000 * e * t, w, w);
    assert((d * v) * w == (o * d * t * t * t) * v) by (nonlinear_arith)
        requires
            w == o * t * t * t,
    ;
    lemma_products_ordered(xfc * v * v * v, o * d * t * t * t, v, v);
    assert((1000 * e * t) * w == 1000 * o * e * (t * t * t * t)) by (nonlinear_arith)
        requires
            w == o * t * t * t,
    ;
    assert(xfc * v * v * v * v == xfc * (v * v * v * v)) by (nonlinear_arith);
}

/// A bitrate of many units is not much above the exact one.
proof fn lemma_not_much_above(w: nat, h: nat, f: nat, c: nat)
    requires
        0 < w <= u32::MAX,
        0 < h <= u32::MAX,
        f > 0,
        0 < c <= double::one(),
        steps(w, h, f, c).3 >= 0x40_0000_0000_0000,
    ensures
        1000 * double::one() * steps(w, h, f, c).3 * fourth(0x20_0000_0000_0000) <= (w * h) * f * c
            * fourth(0x20_0000_0000_0001),
{
    let o = double::one();
    let (pixels, rate, bits, kilo) = steps(w, h, f, c);
    lemma_one_is_huge();
    lemma_steps(w, h, f, c);
    lemma_quotient_excess(w * h * o, 1);
    lemma_quotient_excess(bits, 1000);
    assert(bits >= 0x40_0000_0000_0000);
    lemma_quotient_excess(rate * c, o);
    assert(bits >= 4 * 0x40_0000_0000_0000);
    assert(rate >= 0x40_0000_0000_0000) by (nonlinear_arith)
        requires
            o * bits * 0x20_0000_0000_0000 <= rate * c * 0x20_0000_0000_0001,
            bits >= 4 * 0x40_0000_0000_0000,
            c <= o,
            o > 0,
    ;
    lemma_quotient_excess(pixels * f, o);
    assert(1 * pixels == pixels);
    lemma_chain_up(
        w * h,
        f,
        c,
        o,
        (pixels, rate, bits, kilo),
        0x20_0000_0000_0000,
        0x20_0000_0000_0001,
    );
}

/// A bitrate of one or more is not much below the exact one.
proof fn lemma_not_much_below(w: nat, h: nat, f: nat, c: nat)
    requires
        0 < w <= u32::MAX,
        0 < h <= u32::MAX,
        f > 0,
        0 < c <= double::one(),
        steps(w, h, f, c).3 >= double::one(),
    ensures
        (w * h) * f * c * fourth(0x1F_FFFF_FFFF_FFFF) <= 1000 * double::one() * steps(w, h, f, c).3
            * fourth(0x20_0000_0000_0000),
{
    let o = double::one();
    let (pixels, rate, bits, kilo) = steps(w, h, f, c);
    let z: nat = 0x40_0000_0000_0000;
    lemma_one_is_huge();
    lemma_steps(w, h, f, c);
    lemma_quotient_excess(bits, 1000);
    assert(bits >= 0x100 * z);
    lemma_rounding(bits, 1000);
    lemma_quotient_excess(rate * c, o);
    assert(rate * c >= o * (0x80 * z)) by (nonlinear_arith)
        requires
            o * bits * 0x20_0000_0000_0000 <= rate * c * 0x20_0000_0000_0001,
            bits >= 0x100 * z,
    ;
    lemma_products_ordered(o, o, 0x10_0000_0000_0000, 0x80 * z);
    lemma_rounding(rate * c, o);
    assert(rate >= 0x80 * z) by (nonlinear_arith)
        requires
            rate * c >= o * (0x80 * z),
            c <= o,
            o > 0,
    ;
    lemma_quotient_excess(pixels * f, o);
    assert(pixels * f >= o * (0x40 * z)) by (nonlinear_arith)
        requires
            o * rate * 0x20_0000_0000_0000 <= pixels * f * 0x20_0000_0000_0001,
            rate >= 0x80 * z,
    ;
    lemma_products_ordered(o, o, 0x10_0000_0000_0000, 0x40 * z);
    lemma_rounding(pixels * f, o);
    assert(w * h * o >= o) by (nonlinear_arith)
        requires
            w >= 1,
            h >= 1,
    ;
    lemma_rounding(w * h * o, 1);
    assert(1 * pixels == pixels);
    lemma_chain_down(
        w * h,
        f,
        c,
        o,
        (pixels, rate, bits, kilo),
        0x20_0000_0000_0000,
        0x1F_FFFF_FFFF_FFFF,
    );
}

/// What all roundings come to.
proof fn lemma_constants(x: nat, k: nat, u: nat, v: nat)
    requires
        u == fourth(0x20_0000_0000_0001),
        v == fourth(0x1F_FFFF_FFFF_FFFF),
        x * v * 0x4_0000_0000_0000 <= k * 0x4_0000_0000_0001 * u,
    ensures
        x * 0x1_0000_0000_0000 <= k * 0x1_0000_0000_0001,
{
    let (c, d): (nat, nat) = (v * 0x4_0000_0000_0000, 0x4_0000_0000_0001 * u);
    assert(d * 0x1_0000_0000_0000 <= c * 0x1_0000_0000_0001 && c > 0) by (nonlinear_arith)
        requires
            c == (0x1F_FFFF_FFFF_FFFF * 0x1F_FFFF_FFFF_FFFF * 0x1F_FFFF_FFFF_FFFF
                * 0x1F_FFFF_FFFF_FFFF) * 0x4_0000_0000_0000,
            d == 0x4_0000_0000_0001 * (0x20_0000_0000_0001 * 0x20_0000_0000_0001
                * 0x20_0000_0000_0001 * 0x20_0000_0000_0001),
    ;
    assert(x * c <= k * d) by (nonlinear_arith)
        requires
            x * v * 0x4_0000_0000_0000 <= k * 0x4_0000_0000_0001 * u,
            c == v * 0x4_0000_0000_0000,
            d == 0x4_0000_0000_0001 * u,
    ;
    assert(x * 0x1_0000_0000_0000 <= k * 0x1_0000_0000_0001) by (nonlinear_arith)
        requires
            x * c <= k * d,
            d * 0x1_0000_0000_0000 <= c * 0x1_0000_0000_0001,
            c > 0,
    ;
}

/// A frame of `a * b` pixels needs as much less than one of `w * h` as it has
/// fewer, but for the rounding.
proof fn lemma_frames_compared(a: nat, b: nat, w: nat, h: nat, f: nat, c: nat, k: nat)
    requires
        0 < a <= u32::MAX,
        0 < b <= u32::MAX,
        0 < w <= u32::MAX,
        0 < h <= u32::MAX,
        f > 0,
        0 < c <= double::one(),
        steps(a, b, f, c).3 >= 0x40_0000_0000_0000,
        steps(w, h, f, c).3 >= double::one(),
        a * b * steps(w, h, f, c).3 * 0x4_0000_0000_0000 <= w * h * k * 0x4_0000_0000_0001,
    ensures
        steps(a, b, f, c).3 * 0x1_0000_0000_0000 <= k * 0x1_0000_0000_0001,
{
    let o = double::one();
    lemma_one_is_huge();
    lemma_not_much_above(a, b, f, c);
    lemma_not_much_below(w, h, f, c);
    let (x, n) = (steps(a, b, f, c).3, steps(w, h, f, c).3);
    let (t, u, v) = (
        fourth(0x20_0000_0000_0000),
        fourth(0x20_0000_0000_0001),
        fourth(0x1F_FFFF_FFFF_FFFF),
    );
    let (ab, wh, fc, g) = (a * b, w * h, f * c, 1000 * o);
    let (p, q): (nat, nat) = (0x4_0000_0000_0000, 0x4_0000_0000_0001);
    assert(ab * f * c == ab * fc && wh * f * c == wh * fc) by (nonlinear_arith)
        requires
            fc == f * c,
    ;
    lemma_products_ordered(g * x * t, ab * fc * u, wh * fc * v, g * n * t);
    assert((g * x * t) * (wh * fc * v) == (g * t * fc) * (x * wh * v)) by (nonlinear_arith);
    assert((ab * fc * u) * (g * n * t) == (g * t * fc) * (ab * n * u)) by (nonlinear_arith);
    assert(g * t * fc > 0) by (nonlinear_arith)
        requires
            g > 0,
            t > 0,
            fc == f * c,
            f > 0,
            c > 0,
    ;
    lemma_factor_dropped(x * wh * v, ab * n * u, g * t * fc);
    lemma_products_ordered(x * wh * v, ab * n * u, p, p);
    lemma_products_ordered(ab * n * p, wh * k * q, u, u);
    assert(ab * n * u * p == (ab * n * p) * u) by (nonlinear_arith);
    assert(x * wh * v * p == wh * (x * v * p)) by (nonlinear_arith);
    assert((wh * k * q) * u == wh * (k * q * u)) by (nonlinear_arith);
    assert(wh > 0) by (nonlinear_arith)
        requires
            wh == w * h,
            w > 0,
            h > 0,
    ;
    lemma_factor_dropped(x * v * p, k * q * u, wh);
    lemma_constants(x, k, u, v);
}

/// The least and the greatest number of bits for a pixel, in units.
proof fn lemma_bits_per_pixel() -> (r: (nat, nat))
    ensures
        plan::min_bits_per_pixel() == Real::Finite(false, r.0),
        plan::max_bits_per_pixel() == Real::Finite(false, r.1),
        0 < r.0 <= r.1 <= double::one(),
{
    let o = double::one();
    lemma_one_is_huge();
    let (c, d) = (double::nearest(45 * o, 1000), double::nearest(15 * o, 100));
    assert(1 * vstd::arithmetic::power2::pow2(1074) == o);
    double::lemma_nearest_at_most(45 * o, 1000, 1, 1074);
    double::lemma_nearest_at_most(15 * o, 100, 1, 1074);
    double::lemma_nearest_monotone(45 * o, 1000, 15 * o, 100);
    lemma_rounding(45 * o, 1000);
    (c, d)
}

/// Fewer bits for a pixel, or fewer pixels, never make a greater bitrate.
proof fn lemma_steps_in_order(a: nat, b: nat, w: nat, h: nat, f: nat, c: nat, d: nat)
    requires
        a <= w,
        b <= h,
        c <= d,
    ensures
        steps(a, b, f, c).1 <= steps(w, h, f, d).1,
        steps(a, b, f, c).2 <= steps(w, h, f, d).2,
        steps(a, b, f, c).3 <= steps(w, h, f, d).3,
{
    let o = double::one();
    lemma_one_is_huge();
    let (p, q) = (steps(a, b, f, c), steps(w, h, f, d));
    lemma_products_ordered(a, w, b, h);
    lemma_products_ordered(a * b, w * h, o, o);
    double::lemma_nearest_monotone(a * b * o, 1, w * h * o, 1);
    lemma_products_ordered(p.0, q.0, f, f);
    lemma_products_ordered(p.0 * f, q.0 * f, o, o);
    double::lemma_nearest_monotone(p.0 * f, o, q.0 * f, o);
    lemma_products_ordered(p.1, q.1, c, d);
    lemma_products_ordered(p.1 * c, q.1 * d, o, o);
    double::lemma_nearest_monotone(p.1 * c, o, q.1 * d, o);
    double::lemma_nearest_monotone(p.2, 1000, q.2, 1000);
}

/// Whether a need is met by a bitrate, but for a rounding of less than one part
/// in `2^48`.
pub open spec fn is_covered(need: Real, kbps: int) -> bool {
    need matches Real::Finite(false, n) && n * 0x1_0000_0000_0000 <= kbps * double::one()
        * 0x1_0000_0000_0001
}

/// The bitrate beyond which quality no longer rises is more than a frame needs.
proof fn lemma_ceiling_covers(a: int, b: int, fps: Real)
    requires
        0 < a <= u32::MAX,
        0 < b <= u32::MAX,
        fps == Real::Infinite(false) || (fps matches Real::Finite(false, f) && f > 0),
        plan::ceiling_kbps(a, b, fps) <= u32::MAX,
    ensures
        is_covered(
            plan::pixel_kbps(a, b, fps, plan::min_bits_per_pixel()),
            plan::ceiling_kbps(a, b, fps),
        ),
{
    let o = double::one();
    lemma_one_is_huge();
    let (c, d) = lemma_bits_per_pixel();
    let most = plan::pixel_kbps(a, b, fps, plan::max_bits_per_pixel());
    if fps is Infinite {
        lemma_endless(a, b, d);
    }
    let f = fps->Finite_1;
    lemma_steps(a as nat, b as nat, f, c);
    lemma_steps(a as nat, b as nat, f, d);
    lemma_steps_in_order(a as nat, b as nat, a as nat, b as nat, f, c, d);
    let (x, y) = (steps(a as nat, b as nat, f, c).3, steps(a as nat, b as nat, f, d).3);
    assert(most == Real::Finite(false, y));
    vstd::arithmetic::div_mod::lemma_fundamental_div_mod(y as int, o as int);
    let (top, kbps) = (double::ceiling(y), plan::ceiling_kbps(a, b, fps));
    assert(y <= top * o) by (nonlinear_arith)
        requires
            y == o * (y / o) + y % o,
            0 <= y % o < o,
            top == if y % o == 0 {
                y / o
            } else {
                y / o + 1
            },
    ;
    assert(top <= kbps);
    lemma_products_ordered(top, kbps as nat, o, o);
}

/// A shrunk frame needs no more than the bitrate it was shrunk to.
proof fn lemma_shrunk_covered(w: int, h: int, kbps: int, fps: Real)
    requires
        2 <= w <= u32::MAX,
        2 <= h <= u32::MAX,
        plan::MIN_VIDEO_KBPS <= kbps <= u32::MAX,
        fps == Real::Infinite(false) || (fps matches Real::Finite(false, f) && f > 0),
        plan::affordable(w, h, kbps, fps).0 > 2,
        plan::affordable(w, h, kbps, fps).1 > 2,
        plan::affordable(w, h, kbps, fps).0 <= w,
        plan::affordable(w, h, kbps, fps).1 <= h,
    ensures
        ({
            let (a, b) = plan::affordable(w, h, kbps, fps);
            is_covered(plan::pixel_kbps(a, b, fps, plan::min_bits_per_pixel()), kbps)
        }),
{
    let o = double::one();
    let k = kbps as nat * o;
    lemma_one_is_huge();
    double::lemma_whole_exact(kbps as nat);
    let (c, d) = lemma_bits_per_pixel();
    let needed = plan::pixel_kbps(w, h, fps, plan::min_bits_per_pixel());
    let (a, b) = plan::affordable(w, h, kbps, fps);
    if needed is Infinite && !needed->Infinite_0 {
        lemma_nothing_left(w, kbps, needed);
    }
    if fps is Infinite {
        lemma_endless(w, h, c);
    } else {
        let f = fps->Finite_1;
        lemma_steps(w as nat, h as nat, f, c);
        lemma_steps(a as nat, b as nat, f, c);
        let (n, x) = (steps(w as nat, h as nat, f, c).3, steps(a as nat, b as nat, f, c).3);
        lemma_steps_in_order(a as nat, b as nat, w as nat, h as nat, f, c, c);
        assert(o <= k) by (nonlinear_arith)
            requires
                k == kbps as nat * o,
                kbps >= 120,
                o > 0,
        ;
        if double::less(double::whole(kbps as nat), needed) {
            law_shrunk_frame_is_covered(w, h, kbps, k, n);
            if x >= 0x40_0000_0000_0000 {
                assert(a * b == a as nat * b as nat && w * h == w as nat * h as nat)
                    by (nonlinear_arith)
                    requires
                        a >= 0,
                        b >= 0,
                        w >= 0,
                        h >= 0,
                ;
                lemma_frames_compared(a as nat, b as nat, w as nat, h as nat, f, c, k);
            }
        }
    }
}

/// Where a frame needs more than any bitrate, nothing is left of it.
proof fn lemma_nothing_left(n: int, kbps: int, needed: Real)
    requires
        2 <= n <= u32::MAX,
        0 <= kbps <= u32::MAX,
        needed == Real::Infinite(false),
    ensures
        plan::shrunk_side(n, kbps, needed) == 2,
{
    reveal(plan::shrunk_side);
    double::lemma_whole_exact(kbps as nat);
    double::lemma_whole_exact(n as nat);
    lemma_one_is_huge();
    let o = double::one();
    let shrink = double::root(double::quotient(double::whole(kbps as nat), needed));
    assert(shrink == Real::Finite(false, 0));
    assert((n as nat * o) * 0 == 0);
    double::lemma_nearest_none(0, o);
}

/// Frames without end need more than any bitrate.
proof fn lemma_endless(w: int, h: int, c: nat)
    requires
        0 < w <= u32::MAX,
        0 < h <= u32::MAX,
        c > 0,
    ensures
        plan::pixel_kbps(w, h, Real::Infinite(false), Real::Finite(false, c)) == Real::Infinite(
            false,
        ),
{
    reveal(plan::pixel_kbps);
    let o = double::one();
    let (x, y) = (w as nat, h as nat);
    lemma_one_is_huge();
    double::lemma_whole_exact(x);
    double::lemma_whole_exact(y);
    double::lemma_whole_exact(1000);
    lemma_steps(x, y, 1, c);
    assert((x * o) * (y * o) == o * (x * y * o)) by (nonlinear_arith);
    assert(o * 1 == o);
    double::lemma_nearest_scaled(x * y * o, 1, o);
    assert(double::product(double::whole(x), double::whole(y)) == double::finite(
        false,
        steps(x, y, 1, c).0,
    ));
}

/// The bitrate of a plan with a byte budget covers its frame: at the fewest bits
/// for a pixel that still look well, the frame needs no more than the bitrate,
/// but for a rounding of less than one part in `2^48`. (A side that is down to
/// two pixels is never shrunk further, and a bitrate past 32 bits is cut.)
pub proof fn law_planned_frame_is_covered(info: MediaInfo, s: Settings)
    requires
        plan::has_budget(info, s),
        plan::planned_kbps(info, s) <= u32::MAX,
        plan::planned(info, s).out_w > 2,
        plan::planned(info, s).out_h > 2,
    ensures
        ({
            let p = plan::planned(info, s);
            p.rate matches RateControl::TwoPass { video_kbps } && is_covered(
                plan::pixel_kbps(
                    p.out_w as int,
                    p.out_h as int,
                    plan::reckoned_fps(info, s),
                    plan::min_bits_per_pixel(),
                ),
                video_kbps as int,
            )
        }),
{
    let fps = plan::reckoned_fps(info, s);
    let (mb, dur, keep) = (s.max_mb->0@, info.duration_s@, plan::keeps_audio(info, s));
    let budget = plan::budget_kbps(mb, dur, keep);
    let (w, h) = plan::boxed(info, s);
    let (a, b) = plan::output_size(info, s);
    plan::law_rate_control(info, s);
    law_output_fits(info, s);
    law_kbps_bounds(info, s);
    lemma_budget_range(mb, dur, keep);
    lemma_boxed_within(info, s);
    lemma_one_is_huge();
    double::lemma_whole_exact(0);
    double::lemma_whole_exact(30);
    if budget <= plan::ceiling_kbps(a, b, fps) {
        plan::lemma_affordable_within(w, h, budget, fps);
        lemma_shrunk_covered(w, h, budget, fps);
    } else {
        lemma_ceiling_covers(a, b, fps);
    }
}

/// A number of bits for each pixel, as a fraction of whole numbers: rounded to
/// `c` units.
spec fn is_bits(c: nat, num: nat, den: nat) -> bool {
    &&& c == double::nearest(num * double::one(), den)
    &&& double::one() <= 32 * c
    &&& 0 < c <= double::one()
    &&& (num == 45 && den == 1000 || num == 15 && den == 100)
}

proof fn lemma_is_bits() -> (r: (nat, nat))
    ensures
        plan::min_bits_per_pixel() == Real::Finite(false, r.0),
        plan::max_bits_per_pixel() == Real::Finite(false, r.1),
        is_bits(r.0, 45, 1000),
        is_bits(r.1, 15, 100),
{
    let o = double::one();
    lemma_one_is_huge();
    let (c, d) = lemma_bits_per_pixel();
    lemma_rounding(45 * o, 1000);
    lemma_rounding(15 * o, 100);
    (c, d)
}

/// A bitrate that was reckoned is not much above the exact one.
proof fn lemma_exact_above(w: nat, h: nat, f: nat, c: nat, num: nat, den: nat)
    requires
        0 < w <= u32::MAX,
        0 < h <= u32::MAX,
        f > 0,
        is_bits(c, num, den),
        steps(w, h, f, c).3 >= 0x40_0000_0000_0000,
    ensures
        1000 * den * steps(w, h, f, c).3 * 0x1_0000_0000_0000 <= (w * h) * f * num
            * 0x1_0000_0000_0001,
{
    let o = double::one();
    let y = steps(w, h, f, c).3;
    lemma_one_is_huge();
    lemma_not_much_above(w, h, f, c);
    lemma_rounding(num * o, den);
    let (t, u): (nat, nat) = (0x20_0000_0000_0000, 0x20_0000_0000_0001);
    let (t4, u4, g) = (fourth(t), fourth(u), (w * h) * f);
    lemma_products_ordered(1000 * o * y * t4, g * c * u4, den * t, den * t);
    lemma_products_ordered(g * u4, g * u4, den * c * t, num * o * u);
    assert((g * c * u4) * (den * t) == (g * u4) * (den * c * t)) by (nonlinear_arith);
    assert((1000 * o * y * t4) * (den * t) == o * ((1000 * den * y) * (t4 * t)))
        by (nonlinear_arith);
    assert((g * u4) * (num * o * u) == o * ((g * num) * (u4 * u))) by (nonlinear_arith);
    lemma_factor_dropped((1000 * den * y) * (t4 * t), (g * num) * (u4 * u), o);
    lemma_fifth(1000 * den * y, g * num);
}

/// A bitrate of one or more that was reckoned is not much below the exact one.
proof fn lemma_exact_below(w: nat, h: nat, f: nat, c: nat, num: nat, den: nat)
    requires
        0 < w <= u32::MAX,
        0 < h <= u32::MAX,
        f > 0,
        is_bits(c, num, den),
        steps(w, h, f, c).3 >= double::one(),
    ensures
        (w * h) * f * num * 0x1_0000_0000_0000 <= 1000 * den * steps(w, h, f, c).3
            * 0x1_0000_0000_0001,
{
    let o = double::one();
    let y = steps(w, h, f, c).3;
    lemma_one_is_huge();
    lemma_not_much_below(w, h, f, c);
    lemma_rounding(num * o, den);
    let (t, v): (nat, nat) = (0x20_0000_0000_0000, 0x1F_FFFF_FFFF_FFFF);
    let (t4, v4, g) = (fourth(t), fourth(v), (w * h) * f);
    lemma_products_ordered(g * c * v4, 1000 * o * y * t4, den * t, den * t);
    lemma_products_ordered(g * v4, g * v4, num * o * v, den * c * t);
    assert((g * c * v4) * (den * t) == (g * v4) * (den * c * t)) by (nonlinear_arith);
    assert((1000 * o * y * t4) * (den * t) == o * ((1000 * den * y) * (t4 * t)))
        by (nonlinear_arith);
    assert((g * v4) * (num * o * v) == o * ((g * num) * (v4 * v))) by (nonlinear_arith);
    lemma_factor_dropped((g * num) * (v4 * v), (1000 * den * y) * (t4 * t), o);
    lemma_fifth_below(g * num, 1000 * den * y);
}

proof fn lemma_fifth(a: nat, b: nat)
    requires
        a * (fourth(0x20_0000_0000_0000) * 0x20_0000_0000_0000) <= b * (fourth(0x20_0000_0000_0001)
            * 0x20_0000_0000_0001),
    ensures
        a * 0x1_0000_0000_0000 <= b * 0x1_0000_0000_0001,
{
    let (c, d): (nat, nat) = (
        fourth(0x20_0000_0000_0000) * 0x20_0000_0000_0000,
        fourth(0x20_0000_0000_0001) * 0x20_0000_0000_0001,
    );
    assert(d * 0x1_0000_0000_0000 <= c * 0x1_0000_0000_0001 && c > 0) by (nonlinear_arith)
        requires
            c == (0x20_0000_0000_0000 * 0x20_0000_0000_0000 * 0x20_0000_0000_0000
                * 0x20_0000_0000_0000) * 0x20_0000_0000_0000,
            d == (0x20_0000_0000_0001 * 0x20_0000_0000_0001 * 0x20_0000_0000_0001
                * 0x20_0000_0000_0001) * 0x20_0000_0000_0001,
    ;
    lemma_through(a, b, c, d, 0x1_0000_0000_0000, 0x1_0000_0000_0001);
}

proof fn lemma_fifth_below(a: nat, b: nat)
    requires
        a * (fourth(0x1F_FFFF_FFFF_FFFF) * 0x1F_FFFF_FFFF_FFFF) <= b * (fourth(0x20_0000_0000_0000)
            * 0x20_0000_0000_0000),
    ensures
        a * 0x1_0000_0000_0000 <= b * 0x1_0000_0000_0001,
{
    let (c, d): (nat, nat) = (
        fourth(0x1F_FFFF_FFFF_FFFF) * 0x1F_FFFF_FFFF_FFFF,
        fourth(0x20_0000_0000_0000) * 0x20_0000_0000_0000,
    );
    assert(d * 0x1_0000_0000_0000 <= c * 0x1_0000_0000_0001 && c > 0) by (nonlinear_arith)
        requires
            c == (0x1F_FFFF_FFFF_FFFF * 0x1F_FFFF_FFFF_FFFF * 0x1F_FFFF_FFFF_FFFF
                * 0x1F_FFFF_FFFF_FFFF) * 0x1F_FFFF_FFFF_FFFF,
            d == (0x20_0000_0000_0000 * 0x20_0000_0000_0000 * 0x20_0000_0000_0000
                * 0x20_0000_0000_0000) * 0x20_0000_0000_0000,
    ;
    lemma_through(a, b, c, d, 0x1_0000_0000_0000, 0x1_0000_0000_0001);
}

/// A bound that goes through another.
proof fn lemma_through(a: nat, b: nat, c: nat, d: nat, i: nat, j: nat)
    requires
        a * c <= b * d,
        d * i <= c * j,
        c > 0,
    ensures
        a * i <= b * j,
{
    assert(a * i <= b * j) by (nonlinear_arith)
        requires
            a * c <= b * d,
            d * i <= c * j,
            c > 0,
    ;
}

/// A bitrate that was reckoned to be below one is little, exactly too.
proof fn lemma_exact_little(w: nat, h: nat, f: nat, c: nat, num: nat, den: nat)
    requires
        0 < w <= u32::MAX,
        0 < h <= u32::MAX,
        f > 0,
        is_bits(c, num, den),
        steps(w, h, f, c).3 < double::one(),
    ensures
        (w * h) * f * num <= 100 * (1000 * den * double::one()),
{
    let o = double::one();
    let (pixels, rate, bits, kilo) = steps(w, h, f, c);
    lemma_one_is_huge();
    lemma_steps(w, h, f, c);
    lemma_not_below(bits, 1000);
    lemma_not_below(rate * c, o);
    lemma_not_below(pixels * f, o);
    lemma_not_below(w * h * o, 1);
    assert(bits <= 1001 * o);
    assert(rate * c <= o * (1002 * o)) by (nonlinear_arith)
        requires
            rate * c * 0x1F_FFFF_FFFF_FFFF <= (o * bits + o) * 0x20_0000_0000_0000,
            bits <= 1001 * o,
            o >= 0x4000_0000_0000_0000_0000_0000_0000_0000_0000,
    ;
    assert(rate <= 32064 * o) by (nonlinear_arith)
        requires
            rate * c <= o * (1002 * o),
            o <= 32 * c,
            o > 0,
    ;
    assert(pixels * f <= o * (32066 * o)) by (nonlinear_arith)
        requires
            pixels * f * 0x1F_FFFF_FFFF_FFFF <= (o * rate + o) * 0x20_0000_0000_0000,
            rate <= 32064 * o,
            o >= 0x4000_0000_0000_0000_0000_0000_0000_0000_0000,
    ;
    let x = w * h;
    assert(x >= 1) by (nonlinear_arith)
        requires
            x == w * h,
            w >= 1,
            h >= 1,
    ;
    assert(x * o <= 2 * pixels) by (nonlinear_arith)
        requires
            x * o * 0x1F_FFFF_FFFF_FFFF <= (1 * pixels + 1) * 0x20_0000_0000_0000,
            o >= 0x4000_0000_0000_0000_0000_0000_0000_0000_0000,
            x >= 1,
    ;
    assert(x * f <= 64132 * o) by (nonlinear_arith)
        requires
            x * o <= 2 * pixels,
            pixels * f <= o * (32066 * o),
            o > 0,
    ;
    assert((x * f) * num <= 45 * (64132 * o)) by (nonlinear_arith)
        requires
            x * f <= 64132 * o,
            num <= 45,
    ;
    assert(1000 * den * o >= 100000 * o) by (nonlinear_arith)
        requires
            den >= 100,
    ;
}

/// A fraction is not much above what it is rounded to.
pub proof fn lemma_not_below(num: nat, den: nat)
    requires
        den > 0,
    ensures
        num * 0x1F_FFFF_FFFF_FFFF <= (den * double::nearest(num, den) + den) * 0x20_0000_0000_0000,
{
    let y = double::nearest(num, den);
    let step = vstd::arithmetic::power2::pow2(double::excess(num / den));
    double::lemma_nearest_error(num, den);
    double::lemma_step_small(num, den);
    let (x, z) = (den * y, den * step);
    assert(2 * num <= 2 * x + z);
    if step == 1 {
        assert(z == den);
    } else {
        assert(z * 0x10_0000_0000_0000 <= num);
    }
}

/// Out of the range of numbers, a bitrate is above any that there is.
proof fn lemma_out_of_range(w: nat, h: nat, f: nat, c: nat)
    requires
        !in_range(w, h, f, c),
        double::one() <= 32 * c,
    ensures
        steps(w, h, f, c).3 >= 0x1_0000_0000_0000_0000 * (0x1_0000_0000_0000_0000 * double::one()),
{
    let o = double::one();
    let (pixels, rate, bits, kilo) = steps(w, h, f, c);
    lemma_one_is_huge();
    vstd::arithmetic::power2::lemma2_to64();
    vstd::arithmetic::power2::lemma2_to64_rest();
    vstd::arithmetic::power2::lemma_pow2_adds(5, 2093);
    vstd::arithmetic::power2::lemma_pow2_adds(10, 2083);
    vstd::arithmetic::power2::lemma_pow2_adds(64, 1074);
    vstd::arithmetic::power2::lemma_pow2_adds(64, 1138);
    vstd::arithmetic::power2::lemma_pow2_strictly_increases(1202, 2083);
    vstd::arithmetic::power2::lemma_pow2_pos(2083);
    let (a, b) = (vstd::arithmetic::power2::pow2(2093), vstd::arithmetic::power2::pow2(2083));
    assert(double::overflow() == 32 * a && a == 1024 * b);
    if rate >= double::overflow() {
        assert(o * (1 * a) <= rate * c) by (nonlinear_arith)
            requires
                rate >= 32 * a,
                o <= 32 * c,
        ;
        double::lemma_nearest_at_least(rate * c, o, 1, 2093);
    }
    if bits >= a {
        double::lemma_nearest_at_least(bits, 1000, 1, 2083);
    }
}

/// The frame rate that a plan is reckoned with is the one that its output has:
/// that of the plan, or else that of the source, and thirty where neither is
/// above zero.
proof fn lemma_output_rate(info: MediaInfo, s: Settings)
    ensures
        ({
            let fps = match plan::planned(info, s).fps {
                Some(x) => x@,
                None => info.fps@,
            };
            plan::reckoned_fps(info, s) == if double::less(double::whole(0), fps) {
                fps
            } else {
                double::whole(30)
            }
        }),
{
    plan::lemma_hundredth();
    let hundredth = double::nearest(double::one(), 100);
    double::lemma_sum_not_less(info.fps, hundredth);
}

/// A plan without a byte cap has the frame of one with a cap that needs no
/// shrinking.
proof fn lemma_free_frame(info: MediaInfo, s: Settings)
    ensures
        ({
            let p = plan::planned(info, Settings { max_mb: None, ..s });
            &&& p.out_w as int == plan::boxed(info, s).0
            &&& p.out_h as int == plan::boxed(info, s).1
        }),
{
    let t = Settings { max_mb: None, ..s };
    lemma_boxed_within(info, t);
    law_output_fits(info, t);
    assert(plan::boxed(info, t) == plan::boxed(info, s));
}

/// The bitrate of a whole number is that number, but for the rounding.
proof fn lemma_whole_near(n: nat) -> (k: nat)
    requires
        120 <= n <= i64::MAX,
    ensures
        double::whole(n) == Real::Finite(false, k),
        n * double::one() * 0x1F_FFFF_FFFF_FFFF <= k * 0x20_0000_0000_0000,
        k >= double::one(),
{
    let o = double::one();
    lemma_one_is_huge();
    let k = double::lemma_whole_finite(n);
    assert(n * o >= o) by (nonlinear_arith)
        requires
            n >= 1,
    ;
    lemma_rounding(n * o, 1);
    assert(1 * (1 * vstd::arithmetic::power2::pow2(1074)) <= n * o);
    double::lemma_nearest_at_least(n * o, 1, 1, 1074);
    assert(1 * double::nearest(n * o, 1) == double::nearest(n * o, 1));
    k
}

/// The bits of a plan with a byte cap follow the frame rate of its output, `f`
/// units of frames a second: that of the plan, or else that of the source, and
/// thirty where that is not known.
///
/// - A bitrate above the minimum spends no more than 0.15 bits on a pixel of a
///   frame, rounded up to a whole bitrate.
/// - The frame gets at least 0.045 bits for each of its pixels, unless a side is
///   down to two.
/// - The frame is smaller than without the cap only where the bitrate that
///   fills the cap gives the larger one fewer.
/// - A bitrate below the one that fills the cap gives at least 0.15 bits.
///
/// All of this but for a rounding of less than one part in `2^46`. (A bitrate
/// past 32 bits is cut.)
pub proof fn law_bits_follow_the_output_rate(info: MediaInfo, s: Settings, f: nat)
    requires
        s.max_mb is Some,
        double::less(double::literal(5, 100), info.duration_s@),
        plan::planned_kbps(info, s) <= u32::MAX,
        ({
            let fps = match plan::planned(info, s).fps {
                Some(x) => x@,
                None => info.fps@,
            };
            if double::less(double::whole(0), fps) {
                fps == Real::Finite(false, f)
            } else {
                f == 30 * double::one()
            }
        }),
    ensures
        ({
            let p = plan::planned(info, s);
            let free = plan::planned(info, Settings { max_mb: None, ..s });
            let (w, h) = (p.out_w as nat, p.out_h as nat);
            let (v, u) = (free.out_w as nat, free.out_h as nat);
            let full = plan::budget_kbps(s.max_mb->0@, info.duration_s@, p.audio_kbps is Some);
            let (t, one): (nat, nat) = (0x4000_0000_0000, double::one());
            p.rate matches RateControl::TwoPass { video_kbps: n } && {
                &&& n > 120 ==> (n - 1) * one * 100000 * t <= (w * h) * f * 15 * (t + 1)
                &&& w > 2 && h > 2 ==> (w * h) * f * 45 * t <= n * one * 1000000 * (t + 1)
                &&& (w, h) != (v, u) ==> full * one * 1000000 * t <= (v * u) * f * 45 * (t + 1)
                &&& n < full ==> (w * h) * f * 15 * t <= n * one * 100000 * (t + 1)
            }
        }),
{
    let p = plan::planned(info, s);
    let fps = plan::reckoned_fps(info, s);
    let (mb, dur, keep) = (s.max_mb->0@, info.duration_s@, plan::keeps_audio(info, s));
    let full = plan::budget_kbps(mb, dur, keep);
    let (w, h) = (p.out_w as nat, p.out_h as nat);
    let o = double::one();
    lemma_output_rate(info, s);
    double::lemma_whole_exact(0);
    double::lemma_whole_exact(30);
    lemma_one_is_huge();
    assert(fps == Real::Finite(false, f) && f > 0);
    plan::law_rate_control(info, s);
    law_output_fits(info, s);
    law_kbps_bounds(info, s);
    lemma_budget_range(mb, dur, keep);
    lemma_boxed_within(info, s);
    lemma_free_frame(info, s);
    let n = plan::planned_kbps(info, s) as nat;
    let (c, d) = lemma_is_bits();
    lemma_ceiling_exact(w, h, f, d, n);
    if w > 2 && h > 2 {
        law_planned_frame_is_covered(info, s);
        lemma_cover_exact(w, h, f, c, n);
    }
    let (v, u) = (plan::boxed(info, s).0 as nat, plan::boxed(info, s).1 as nat);
    if (w, h) != (v, u) {
        lemma_shrink_exact(v, u, f, c, full as nat);
    }
}

/// What the ceiling of a bitrate is, exactly.
proof fn lemma_ceiling_exact(w: nat, h: nat, f: nat, d: nat, n: nat)
    requires
        0 < w <= u32::MAX,
        0 < h <= u32::MAX,
        f > 0,
        is_bits(d, 15, 100),
        plan::max_bits_per_pixel() == Real::Finite(false, d),
        120 <= n <= u32::MAX,
    ensures
        ({
            let top = plan::ceiling_kbps(w as int, h as int, Real::Finite(false, f));
            let t: nat = 0x4000_0000_0000;
            &&& 120 < n <= top ==> (n - 1) * double::one() * 100000 * t <= (w * h) * f * 15 * (t
                + 1)
            &&& n == top ==> (w * h) * f * 15 * t <= n * double::one() * 100000 * (t + 1)
        }),
{
    let o = double::one();
    let y = steps(w, h, f, d).3;
    let top = plan::ceiling_kbps(w as int, h as int, Real::Finite(false, f));
    lemma_one_is_huge();
    lemma_steps(w, h, f, d);
    vstd::arithmetic::div_mod::lemma_fundamental_div_mod(y as int, o as int);
    if 120 < n <= top {
        assert((n - 1) * o <= y) by {
            if in_range(w, h, f, d) {
                let q = y / o;
                assert(n <= q + 1 && (y % o == 0 ==> n <= q));
                assert((n - 1) * o <= y) by (nonlinear_arith)
                    requires
                        n - 1 <= q,
                        y == o * q + y % o,
                        y % o >= 0,
                        o > 0,
                ;
            } else {
                lemma_out_of_range(w, h, f, d);
                assert((n - 1) * o <= 0x1_0000_0000 * o) by (nonlinear_arith)
                    requires
                        n <= 0x1_0000_0000,
                        o > 0,
                ;
            }
        }
        assert((n - 1) * o >= o) by (nonlinear_arith)
            requires
                n > 120,
                o > 0,
        ;
        lemma_exact_above(w, h, f, d, 15, 100);
        lemma_loosened((n - 1) as nat * o, y, (w * h) * f * 15, 100000);
    }
    if n == top {
        assert(in_range(w, h, f, d));
        let q = y / o;
        assert(y <= n * o) by (nonlinear_arith)
            requires
                y == o * q + y % o,
                0 <= y % o < o,
                q + 1 <= n || (y % o == 0 && q <= n),
        ;
        if y >= o {
            lemma_exact_below(w, h, f, d, 15, 100);
        } else {
            lemma_exact_little(w, h, f, d, 15, 100);
        }
        lemma_need_met((w * h) * f * 15, y, n, 100000);
    }
}

/// A bound below what was reckoned, exactly.
proof fn lemma_loosened(a: nat, y: nat, g: nat, m: nat)
    requires
        a <= y,
        m * y * 0x1_0000_0000_0000 <= g * 0x1_0000_0000_0001,
    ensures
        a * m * 0x4000_0000_0000 <= g * 0x4000_0000_0001,
{
    lemma_products_ordered(a, y, m, m);
    assert(y * m == m * y) by (nonlinear_arith);
}

/// A need that was reckoned and is met, exactly.
proof fn lemma_need_met(g: nat, y: nat, n: nat, m: nat)
    requires
        n >= 120,
        y * 0x1_0000_0000_0000 <= n * double::one() * 0x1_0000_0000_0001,
        if y >= double::one() {
            g * 0x1_0000_0000_0000 <= m * y * 0x1_0000_0000_0001
        } else {
            g <= 100 * (m * double::one())
        },
    ensures
        g * 0x4000_0000_0000 <= n * double::one() * m * 0x4000_0000_0001,
{
    let o = double::one();
    let (x, z) = (m * y, n * o * m);
    assert(100 * (m * o) <= z) by (nonlinear_arith)
        requires
            z == n * o * m,
            n >= 100,
    ;
    assert(x * 0x1_0000_0000_0000 <= z * 0x1_0000_0000_0001) by (nonlinear_arith)
        requires
            x == m * y,
            z == n * o * m,
            y * 0x1_0000_0000_0000 <= n * o * 0x1_0000_0000_0001,
    ;
    if y >= o {
        assert(g * 0x4000_0000_0000 <= z * 0x4000_0000_0001);
    }
}

/// A frame that a bitrate covers, exactly.
proof fn lemma_cover_exact(w: nat, h: nat, f: nat, c: nat, n: nat)
    requires
        0 < w <= u32::MAX,
        0 < h <= u32::MAX,
        f > 0,
        is_bits(c, 45, 1000),
        plan::min_bits_per_pixel() == Real::Finite(false, c),
        n >= 120,
        is_covered(
            plan::pixel_kbps(
                w as int,
                h as int,
                Real::Finite(false, f),
                plan::min_bits_per_pixel(),
            ),
            n as int,
        ),
    ensures
        (w * h) * f * 45 * 0x4000_0000_0000 <= n * double::one() * 1000000 * 0x4000_0000_0001,
{
    let y = steps(w, h, f, c).3;
    lemma_steps(w, h, f, c);
    if y >= double::one() {
        lemma_exact_below(w, h, f, c, 45, 1000);
    } else {
        lemma_exact_little(w, h, f, c, 45, 1000);
    }
    lemma_need_met((w * h) * f * 45, y, n, 1000000);
}

/// A frame that a bitrate does not cover, exactly.
proof fn lemma_shrink_exact(w: nat, h: nat, f: nat, c: nat, n: nat)
    requires
        0 < w <= u32::MAX,
        0 < h <= u32::MAX,
        f > 0,
        is_bits(c, 45, 1000),
        plan::min_bits_per_pixel() == Real::Finite(false, c),
        120 <= n <= i64::MAX,
        double::less(
            double::whole(n),
            plan::pixel_kbps(
                w as int,
                h as int,
                Real::Finite(false, f),
                plan::min_bits_per_pixel(),
            ),
        ),
    ensures
        n * double::one() * 1000000 * 0x4000_0000_0000 <= (w * h) * f * 45 * 0x4000_0000_0001,
{
    let o = double::one();
    let y = steps(w, h, f, c).3;
    let k = lemma_whole_near(n);
    lemma_one_is_huge();
    lemma_steps(w, h, f, c);
    let a = n * o;
    assert(a * 0x1F_FFFF_FFFF_FFFF <= y * 0x20_0000_0000_0000 && y >= o) by {
        if !in_range(w, h, f, c) {
            lemma_out_of_range(w, h, f, c);
            assert(a <= 0x1_0000_0000_0000_0000 * o) by (nonlinear_arith)
                requires
                    a == n * o,
                    n <= 0x1_0000_0000_0000_0000,
            ;
        }
    }
    lemma_exact_above(w, h, f, c, 45, 1000);
    let g = (w * h) * f * 45;
    assert(a * 1000000 * 0x4000_0000_0000 <= g * 0x4000_0000_0001) by (nonlinear_arith)
        requires
            a * 0x1F_FFFF_FFFF_FFFF <= y * 0x20_0000_0000_0000,
            1000 * 1000 * y * 0x1_0000_0000_0000 <= g * 0x1_0000_0000_0001,
    ;
}

/// The product of the roundings of a shrunk frame, from below.
proof fn lemma_shrunk_chain_below(
    a: nat,
    b: nat,
    w: nat,
    h: nat,
    scale: nat,
    num: nat,
    q: nat,
    k: nat,
    n: nat,
    o: nat,
    t: nat,
    u: nat,
    v: nat,
)
    requires
        o > 0,
        t > 0,
        v * (w * scale) <= a * o * t,
        v * (h * scale) <= b * o * t,
        num * v <= 2 * scale * t,
        4 * (q * o) * (t * t) <= (num * num) * (u * u),
        k * o * v <= n * q * t,
    ensures
        (w * h) * k * (v * v * v * v * v) <= (a * b) * n * (t * t * t * u * u),
{
    let (ab, wh, cc, mm) = (a * b, w * h, scale * scale, num * num);
    let (tt, uu, vv) = (t * t, u * u, v * v);
    lemma_products_ordered(v * (w * scale), a * o * t, v * (h * scale), b * o * t);
    assert((v * (w * scale)) * (v * (h * scale)) == vv * wh * cc) by (nonlinear_arith)
        requires
            vv == v * v,
            wh == w * h,
            cc == scale * scale,
    ;
    assert((a * o * t) * (b * o * t) == ab * (o * o) * tt) by (nonlinear_arith)
        requires
            ab == a * b,
            tt == t * t,
    ;
    lemma_products_ordered(num * v, 2 * scale * t, num * v, 2 * scale * t);
    assert((num * v) * (num * v) == mm * vv) by (nonlinear_arith)
        requires
            mm == num * num,
            vv == v * v,
    ;
    assert((2 * scale * t) * (2 * scale * t) == 4 * cc * tt) by (nonlinear_arith)
        requires
            cc == scale * scale,
            tt == t * t,
    ;
    // ab * oo * tt >= vv * wh * cc, and 4 * cc * tt >= mm * vv.
    let oo = o * o;
    lemma_products_ordered(vv * wh * cc, ab * oo * tt, 4 * tt, 4 * tt);
    lemma_products_ordered(mm * vv, 4 * cc * tt, vv * wh, vv * wh);
    assert((vv * wh * cc) * (4 * tt) == (4 * cc * tt) * (vv * wh)) by (nonlinear_arith);
    let x = (ab * oo * tt) * (4 * tt);
    assert((mm * vv) * (vv * wh) <= x);
    // mm * uu >= 4 * q * o * tt.
    let z = vv * vv * wh;
    assert((mm * vv) * (vv * wh) == mm * z) by (nonlinear_arith)
        requires
            z == vv * vv * wh,
    ;
    lemma_products_ordered(mm * z, x, uu, uu);
    lemma_products_ordered(4 * (q * o) * tt, mm * uu, z, z);
    assert((mm * uu) * z == (mm * z) * uu) by (nonlinear_arith);
    let y = 4 * (q * o) * tt;
    assert(y * z <= x * uu);
    // n * q * t >= k * o * v.
    lemma_products_ordered(y * z, x * uu, n * t, n * t);
    let c = 4 * o * tt * z;
    lemma_products_ordered(k * o * v, n * q * t, c, c);
    assert((n * q * t) * c == (y * z) * (n * t)) by (nonlinear_arith)
        requires
            y == 4 * (q * o) * tt,
            c == 4 * o * tt * z,
    ;
    assert((k * o * v) * c <= (x * uu) * (n * t));
    let f = 4 * oo * tt;
    assert((k * o * v) * c == f * ((k * v) * z)) by (nonlinear_arith)
        requires
            c == 4 * o * tt * z,
            f == 4 * oo * tt,
            oo == o * o,
    ;
    assert((x * uu) * (n * t) == f * (ab * tt * uu * n * t)) by (nonlinear_arith)
        requires
            x == (ab * oo * tt) * (4 * tt),
            f == 4 * oo * tt,
    ;
    assert(oo > 0 && tt > 0 && f > 0) by (nonlinear_arith)
        requires
            oo == o * o,
            tt == t * t,
            f == 4 * oo * tt,
            o > 0,
            t > 0,
    ;
    lemma_factor_dropped((k * v) * z, ab * tt * uu * n * t, f);
    assert((k * v) * z == wh * k * (v * v * v * v * v)) by (nonlinear_arith)
        requires
            z == vv * vv * wh,
            vv == v * v,
    ;
    assert(ab * tt * uu * n * t == ab * n * (t * t * t * u * u)) by (nonlinear_arith)
        requires
            tt == t * t,
            uu == u * u,
    ;
}

/// A frame that is shrunk for a bitrate of `k` units, where it needs `n`, is not
/// shrunk much below that bitrate.
proof fn lemma_shrunk_enough(w: int, h: int, kbps: int, k: nat, n: nat)
    requires
        2 <= w <= u32::MAX,
        2 <= h <= u32::MAX,
        0 <= kbps <= i64::MAX,
        double::whole(kbps as nat) == Real::Finite(false, k),
        0 < k < n,
    ensures
        ({
            let a = plan::shrunk_side(w, kbps, Real::Finite(false, n));
            let b = plan::shrunk_side(h, kbps, Real::Finite(false, n));
            (w * h) * k * 0x1_0000_0000_0000 <= ((a + 2) * (b + 2)) * n * 0x1_0000_0000_0001
        }),
{
    reveal(plan::shrunk_side);
    let o = double::one();
    lemma_one_is_huge();
    let needed = Real::Finite(false, n);
    let (a, b) = (plan::shrunk_side(w, kbps, needed), plan::shrunk_side(h, kbps, needed));
    let (c, d) = ((a + 2) as nat, (b + 2) as nat);
    let (m, l) = (w as nat, h as nat);
    assert(m * l == w * h && c * d == (a + 2) * (b + 2)) by (nonlinear_arith)
        requires
            m == w,
            l == h,
            c == a + 2,
            d == b + 2,
    ;
    assert(c * d >= 16) by (nonlinear_arith)
        requires
            c >= 4,
            d >= 4,
    ;
    let (p, g) = (m * l, c * d);
    if n >= 0x1_0000_0000_0000_0000 * k {
        assert(p * k <= g * n) by (nonlinear_arith)
            requires
                p == m * l,
                m <= 0xFFFF_FFFF,
                l <= 0xFFFF_FFFF,
                n >= 0x1_0000_0000_0000_0000 * k,
                g >= 16,
        ;
    } else {
        let scale = double::lemma_shrink_at_most_one(kbps as nat, needed);
        let q = double::nearest(k * o, n);
        plan::lemma_ratio_in_range(k, n);
        assert(k * o >= n * 0x4000_0000_0000_0000_0000) by (nonlinear_arith)
            requires
                n <= 0x1_0000_0000_0000_0000 * k,
                o >= 0x4000_0000_0000_0000_0000_0000_0000_0000_0000,
        ;
        lemma_rounding(k * o, n);
        assert(q >= 0x2000_0000_0000_0000_0000) by (nonlinear_arith)
            requires
                k * o >= n * 0x4000_0000_0000_0000_0000,
                k * o * 0x1F_FFFF_FFFF_FFFF <= n * q * 0x20_0000_0000_0000,
                n > 0,
        ;
        let r = double::lemma_root_exists(q * o);
        let num: nat = if r * r == q * o {
            2 * r
        } else {
            2 * r + 1
        };
        assert(scale == double::nearest(num, 2));
        assert(r >= 0x1_0000_0000_0000_0000) by (nonlinear_arith)
            requires
                q * o < (r + 1) * (r + 1),
                q >= 0x2000_0000_0000_0000_0000,
                o >= 0x4000_0000_0000_0000_0000_0000_0000_0000_0000,
        ;
        lemma_rounding(num, 2);
        let (t, u, v): (nat, nat, nat) = (
            0x20_0000_0000_0000,
            0x20_0000_0000_0001,
            0x1F_FFFF_FFFF_FFFF,
        );
        let x = q * o;
        assert(4 * x <= (num + 1) * (num + 1)) by {
            if r * r == x {
                assert(4 * x <= (2 * r + 1) * (2 * r + 1)) by (nonlinear_arith)
                    requires
                        r * r == x,
                ;
            } else {
                assert(4 * x <= (2 * r + 2) * (2 * r + 2)) by (nonlinear_arith)
                    requires
                        x < (r + 1) * (r + 1),
                ;
            }
        }
        lemma_products_ordered((num + 1) * t, num * u, (num + 1) * t, num * u);
        assert(((num + 1) * t) * ((num + 1) * t) == (num + 1) * (num + 1) * (t * t))
            by (nonlinear_arith);
        assert((num * u) * (num * u) == (num * num) * (u * u)) by (nonlinear_arith);
        lemma_products_ordered(4 * x, (num + 1) * (num + 1), t * t, t * t);
        lemma_side_kept(m, scale, a);
        lemma_side_kept(l, scale, b);
        lemma_shrunk_chain_below(c, d, m, l, scale, num, q, k, n, o, t, u, v);
        let (e, f): (nat, nat) = (v * v * v * v * v, t * t * t * u * u);
        assert(f * 0x1_0000_0000_0000 <= e * 0x1_0000_0000_0001 && e > 0) by (nonlinear_arith)
            requires
                e == 0x1F_FFFF_FFFF_FFFF * 0x1F_FFFF_FFFF_FFFF * 0x1F_FFFF_FFFF_FFFF
                    * 0x1F_FFFF_FFFF_FFFF * 0x1F_FFFF_FFFF_FFFF,
                f == 0x20_0000_0000_0000 * 0x20_0000_0000_0000 * 0x20_0000_0000_0000
                    * 0x20_0000_0000_0001 * 0x20_0000_0000_0001,
        ;
        lemma_through(p * k, g * n, e, f, 0x1_0000_0000_0000, 0x1_0000_0000_0001);
    }
}

/// A side loses less than two pixels where it is scaled and made even.
proof fn lemma_side_kept(n: nat, scale: nat, a: int)
    requires
        n <= u32::MAX,
        scale <= double::one(),
        a == plan::evened(plan::scaled(n, Real::Finite(false, scale), 2)),
    ensures
        0x1F_FFFF_FFFF_FFFF * (n * scale) <= (a + 2) * double::one() * 0x20_0000_0000_0000,
{
    let o = double::one();
    let x = double::lemma_scaled_near(n, scale, u32::MAX as nat);
    let f = double::whole_part(
        double::product(double::whole(n), Real::Finite(false, scale)),
        u32::MAX as nat,
    );
    assert(f + 1 <= a + 2);
    assert((f + 1) * o <= (a + 2) * o) by (nonlinear_arith)
        requires
            f + 1 <= a + 2,
    ;
}

/// A byte cap shrinks a frame no more than it must: with two pixels more on both
/// sides, the frame would get no more than 0.045 bits for each pixel of each of
/// its `f` units of frames a second out of the bitrate that fills the cap, but
/// for a rounding of less than one part in `2^44`.
pub proof fn law_frame_shrinks_no_more_than_it_must(info: MediaInfo, s: Settings, f: nat)
    requires
        s.max_mb is Some,
        double::less(double::literal(5, 100), info.duration_s@),
        ({
            let fps = match plan::planned(info, s).fps {
                Some(x) => x@,
                None => info.fps@,
            };
            if double::less(double::whole(0), fps) {
                fps == Real::Finite(false, f)
            } else {
                f == 30 * double::one()
            }
        }),
    ensures
        ({
            let p = plan::planned(info, s);
            let free = plan::planned(info, Settings { max_mb: None, ..s });
            let (w, h) = (p.out_w + 2, p.out_h + 2);
            let full = plan::budget_kbps(s.max_mb->0@, info.duration_s@, p.audio_kbps is Some);
            (p.out_w, p.out_h) != (free.out_w, free.out_h) ==> full * double::one() * 1000000
                * 0x1000_0000_0000 <= (w * h) * f * 45 * 0x1000_0000_0001
        }),
{
    let o = double::one();
    let fps = plan::reckoned_fps(info, s);
    let (mb, dur, keep) = (s.max_mb->0@, info.duration_s@, plan::keeps_audio(info, s));
    let full = plan::budget_kbps(mb, dur, keep);
    let (v, u) = plan::boxed(info, s);
    let (a, b) = plan::output_size(info, s);
    lemma_output_rate(info, s);
    double::lemma_whole_exact(0);
    double::lemma_whole_exact(30);
    lemma_one_is_huge();
    law_output_fits(info, s);
    lemma_budget_range(mb, dur, keep);
    lemma_boxed_within(info, s);
    lemma_free_frame(info, s);
    let (c, d) = lemma_is_bits();
    if (a, b) != (v, u) {
        let (w, h) = (v as nat, u as nat);
        let y = steps(w, h, f, c).3;
        let k = lemma_whole_near(full as nat);
        lemma_steps(w, h, f, c);
        let (g, z) = ((a + 2) * (b + 2), (w * h) * f * 45);
        assert(g >= 16) by (nonlinear_arith)
            requires
                g == (a + 2) * (b + 2),
                a >= 2,
                b >= 2,
        ;
        if !in_range(w, h, f, c) {
            lemma_out_of_range(w, h, f, c);
        }
        lemma_exact_above(w, h, f, c, 45, 1000);
        assert(w * h == v * u && w * h > 0) by (nonlinear_arith)
            requires
                w == v,
                h == u,
                v > 0,
                u > 0,
        ;
        let wh = w * h;
        assert(wh * k * 0x1_0000_0000_0000 <= g * y * 0x1_0000_0000_0001) by {
            if in_range(w, h, f, c) {
                lemma_shrunk_enough(v, u, full, k, y);
            } else {
                lemma_most_bits(full as nat, k);
                assert(wh * k <= g * y) by (nonlinear_arith)
                    requires
                        wh == w * h,
                        w <= 0xFFFF_FFFF,
                        h <= 0xFFFF_FFFF,
                        k <= 0x1_0000_0000_0000_0000 * o,
                        y >= 0x1_0000_0000_0000_0000 * (0x1_0000_0000_0000_0000 * o),
                        g >= 16,
                ;
            }
        }
        lemma_freed(full as nat, k, wh, g as nat, y, f, o);
    }
}

/// The bitrate of a whole number that the machine holds.
proof fn lemma_most_bits(n: nat, k: nat)
    requires
        n <= i64::MAX,
        double::whole(n) == Real::Finite(false, k),
    ensures
        k <= 0x1_0000_0000_0000_0000 * double::one(),
{
    let o = double::one();
    vstd::arithmetic::power2::lemma2_to64();
    vstd::arithmetic::power2::lemma_pow2_adds(64, 1074);
    assert(n * o <= 1 * (1 * (0x1_0000_0000_0000_0000 * o))) by (nonlinear_arith)
        requires
            n <= 0x1_0000_0000_0000_0000,
    ;
    double::lemma_nearest_at_most(n * o, 1, 1, 1138);
}

/// The pixels of the larger frame drop out.
proof fn lemma_freed(n: nat, k: nat, wh: nat, g: nat, y: nat, f: nat, o: nat)
    requires
        wh > 0,
        n * o * 0x1F_FFFF_FFFF_FFFF <= k * 0x20_0000_0000_0000,
        wh * k * 0x1_0000_0000_0000 <= g * y * 0x1_0000_0000_0001,
        1000 * 1000 * y * 0x1_0000_0000_0000 <= wh * f * 45 * 0x1_0000_0000_0001,
    ensures
        n * o * 1000000 * 0x1000_0000_0000 <= g * f * 45 * 0x1000_0000_0001,
{
    let (a, z, e) = (n * o, wh * f * 45, g * f * 45);
    lemma_products_ordered(1000 * 1000 * y * 0x1_0000_0000_0000, z * 0x1_0000_0000_0001, g, g);
    assert(g * z == wh * e) by (nonlinear_arith)
        requires
            z == wh * f * 45,
            e == g * f * 45,
    ;
    let gy = g * y;
    assert(gy * 1000000 * 0x1_0000_0000_0000 <= (wh * e) * 0x1_0000_0000_0001) by (nonlinear_arith)
        requires
            (1000 * 1000 * y * 0x1_0000_0000_0000) * g <= (z * 0x1_0000_0000_0001) * g,
            gy == g * y,
            g * z == wh * e,
    ;
    let wk = wh * k;
    assert(wk * 1000000 * 0x4000_0000_0000 <= (wh * e) * 0x4000_0000_0001) by (nonlinear_arith)
        requires
            wk * 0x1_0000_0000_0000 <= gy * 0x1_0000_0000_0001,
            gy * 1000000 * 0x1_0000_0000_0000 <= (wh * e) * 0x1_0000_0000_0001,
    ;
    assert(wk * 1000000 * 0x4000_0000_0000 == wh * (k * 1000000 * 0x4000_0000_0000))
        by (nonlinear_arith)
        requires
            wk == wh * k,
    ;
    assert((wh * e) * 0x4000_0000_0001 == wh * (e * 0x4000_0000_0001)) by (nonlinear_arith);
    lemma_factor_dropped(k * 1000000 * 0x4000_0000_0000, e * 0x4000_0000_0001, wh);
    assert(a * 1000000 * 0x1000_0000_0000 <= e * 0x1000_0000_0001) by (nonlinear_arith)
        requires
            a * 0x1F_FFFF_FFFF_FFFF <= k * 0x20_0000_0000_0000,
            k * 1000000 * 0x4000_0000_0000 <= e * 0x4000_0000_0001,
    ;
}

} // verus!
