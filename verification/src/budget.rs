//! The byte cap of a plan: what its bitrates come to over the whole duration.
use crate::double;
use crate::double::Real;
use crate::plan;
use crate::plan::{
    lemma_budget_range, lemma_factor_dropped, lemma_one_is_huge, lemma_products_ordered,
    lemma_rounding, MediaInfo, RateControl, Settings,
};
use vstd::prelude::*;

verus! {

/// A number of many units, times a whole number: rounded little.
pub proof fn lemma_times(a: nat, n: nat) -> (r: nat)
    requires
        0 < n < 0x20_0000_0000_0000,
        0x10_0000_0000_0000 <= a <= 0x1000_0000_0000_0000 * double::one(),
        n * a <= 0x1000_0000_0000_0000 * double::one(),
    ensures
        double::product(Real::Finite(false, a), double::whole(n)) == Real::Finite(false, r),
        r * 0x20_0000_0000_0000 <= n * a * 0x20_0000_0000_0001,
        n * a * 0x1F_FFFF_FFFF_FFFF <= r * 0x20_0000_0000_0000,
        r == double::nearest(n * a, 1),
{
    let o = double::one();
    lemma_one_is_huge();
    double::lemma_whole_exact(n);
    double::lemma_nearest_scaled(n * a, 1, o);
    assert(a * (n * o) == o * (n * a)) by (nonlinear_arith);
    assert(o * 1 == o);
    assert(n * a >= a) by (nonlinear_arith)
        requires
            n >= 1,
    ;
    lemma_rounding(n * a, 1);
    let r = double::nearest(n * a, 1);
    assert(1 * r == r);
    r
}

/// The bits that a cap of `m` units of megabytes leaves: eight for each of its
/// bytes, less four in a hundred.
proof fn lemma_bits_of_cap(mb: Real, m: nat) -> (r: nat)
    requires
        double::greater(mb, double::literal(1, 10)) == Real::Finite(false, m),
        double::one() <= 16 * m,
        m <= 0x1_0000_0000 * double::one(),
    ensures
        plan::budget_bits(mb) == Real::Finite(false, r),
        r * 100 * 0x1_0000_0000_0000 <= m * 8388608 * 96 * 0x1_0000_0000_0001,
        m * 8388608 * 96 * 0x1_0000_0000_0000 <= r * 100 * 0x1_0000_0000_0001,
{
    let o = double::one();
    lemma_one_is_huge();
    let a = lemma_times(m, 1024);
    let b = lemma_times(a, 1024);
    let d = lemma_times(b, 8);
    let c = double::nearest(96 * o, 100);
    lemma_rounding(96 * o, 100);
    assert(1 * vstd::arithmetic::power2::pow2(1074) == o);
    double::lemma_nearest_at_most(96 * o, 100, 1, 1074);
    assert(double::literal(96, 100) == Real::Finite(false, c));
    let x = d * c;
    assert(x >= o * 0x10_0000_0000_0000) by (nonlinear_arith)
        requires
            x == d * c,
            d >= o,
            2 * c >= o,
            o >= 0x4000_0000_0000_0000_0000_0000_0000_0000_0000,
    ;
    lemma_rounding(x, o);
    let r = double::nearest(x, o);
    lemma_cap_chain(m, a, b, d, c, r, o);
    assert(r < double::overflow());
    r
}

proof fn lemma_cap_chain(m: nat, a: nat, b: nat, d: nat, c: nat, r: nat, o: nat)
    requires
        o > 0,
        a * 0x20_0000_0000_0000 <= 1024 * m * 0x20_0000_0000_0001,
        1024 * m * 0x1F_FFFF_FFFF_FFFF <= a * 0x20_0000_0000_0000,
        b * 0x20_0000_0000_0000 <= 1024 * a * 0x20_0000_0000_0001,
        1024 * a * 0x1F_FFFF_FFFF_FFFF <= b * 0x20_0000_0000_0000,
        d * 0x20_0000_0000_0000 <= 8 * b * 0x20_0000_0000_0001,
        8 * b * 0x1F_FFFF_FFFF_FFFF <= d * 0x20_0000_0000_0000,
        100 * c * 0x20_0000_0000_0000 <= 96 * o * 0x20_0000_0000_0001,
        96 * o * 0x1F_FFFF_FFFF_FFFF <= 100 * c * 0x20_0000_0000_0000,
        o * r * 0x20_0000_0000_0000 <= d * c * 0x20_0000_0000_0001,
        d * c * 0x1F_FFFF_FFFF_FFFF <= o * r * 0x20_0000_0000_0000,
    ensures
        r * 100 * 0x1_0000_0000_0000 <= m * 8388608 * 96 * 0x1_0000_0000_0001,
        m * 8388608 * 96 * 0x1_0000_0000_0000 <= r * 100 * 0x1_0000_0000_0001,
{
    let g = m * 8388608;
    assert(d * 0x8_0000_0000_0000 <= g * 0x8_0000_0000_0001);
    assert(g * 0x8_0000_0000_0000 <= d * 0x8_0000_0000_0001);
    let e = 100 * c;
    // d * e against g * 96 * o
    lemma_products_ordered(
        d * 0x8_0000_0000_0000,
        g * 0x8_0000_0000_0001,
        e * 0x20_0000_0000_0000,
        96 * o * 0x20_0000_0000_0001,
    );
    lemma_products_ordered(
        g * 0x8_0000_0000_0000,
        d * 0x8_0000_0000_0001,
        96 * o * 0x1F_FFFF_FFFF_FFFF,
        e * 0x20_0000_0000_0000,
    );
    let (x, y) = (d * e, g * 96 * o);
    assert((d * 0x8_0000_0000_0000) * (e * 0x20_0000_0000_0000) == x * (0x8_0000_0000_0000
        * 0x20_0000_0000_0000)) by (nonlinear_arith)
        requires
            x == d * e,
    ;
    assert((g * 0x8_0000_0000_0001) * (96 * o * 0x20_0000_0000_0001) == y * (0x8_0000_0000_0001
        * 0x20_0000_0000_0001)) by (nonlinear_arith)
        requires
            y == g * 96 * o,
    ;
    assert((g * 0x8_0000_0000_0000) * (96 * o * 0x1F_FFFF_FFFF_FFFF) == y * (0x8_0000_0000_0000
        * 0x1F_FFFF_FFFF_FFFF)) by (nonlinear_arith)
        requires
            y == g * 96 * o,
    ;
    assert((d * 0x8_0000_0000_0001) * (e * 0x20_0000_0000_0000) == x * (0x8_0000_0000_0001
        * 0x20_0000_0000_0000)) by (nonlinear_arith)
        requires
            x == d * e,
    ;
    let z = o * (r * 100);
    assert(z * 0x20_0000_0000_0000 <= x * 0x20_0000_0000_0001 && x * 0x1F_FFFF_FFFF_FFFF <= z
        * 0x20_0000_0000_0000) by (nonlinear_arith)
        requires
            z == o * (r * 100),
            x == d * e,
            e == 100 * c,
            o * r * 0x20_0000_0000_0000 <= d * c * 0x20_0000_0000_0001,
            d * c * 0x1F_FFFF_FFFF_FFFF <= o * r * 0x20_0000_0000_0000,
    ;
    assert(z * 0x1_0000_0000_0000 <= y * 0x1_0000_0000_0001) by (nonlinear_arith)
        requires
            z * 0x20_0000_0000_0000 <= x * 0x20_0000_0000_0001,
            x * (0x8_0000_0000_0000 * 0x20_0000_0000_0000) <= y * (0x8_0000_0000_0001
                * 0x20_0000_0000_0001),
    ;
    assert(y * 0x1_0000_0000_0000 <= z * 0x1_0000_0000_0001) by (nonlinear_arith)
        requires
            x * 0x1F_FFFF_FFFF_FFFF <= z * 0x20_0000_0000_0000,
            y * (0x8_0000_0000_0000 * 0x1F_FFFF_FFFF_FFFF) <= x * (0x8_0000_0000_0001
                * 0x20_0000_0000_0000),
    ;
    let h = g * 96;
    assert(y == o * h) by (nonlinear_arith)
        requires
            y == g * 96 * o,
            h == g * 96,
    ;
    assert(z * 0x1_0000_0000_0000 == o * ((r * 100) * 0x1_0000_0000_0000)) by (nonlinear_arith)
        requires
            z == o * (r * 100),
    ;
    assert(y * 0x1_0000_0000_0001 == o * (h * 0x1_0000_0000_0001)) by (nonlinear_arith)
        requires
            y == o * h,
    ;
    assert(y * 0x1_0000_0000_0000 == o * (h * 0x1_0000_0000_0000)) by (nonlinear_arith)
        requires
            y == o * h,
    ;
    assert(z * 0x1_0000_0000_0001 == o * ((r * 100) * 0x1_0000_0000_0001)) by (nonlinear_arith)
        requires
            z == o * (r * 100),
    ;
    lemma_factor_dropped((r * 100) * 0x1_0000_0000_0000, h * 0x1_0000_0000_0001, o);
    lemma_factor_dropped(h * 0x1_0000_0000_0000, (r * 100) * 0x1_0000_0000_0001, o);
}

/// The bits that the audio takes over `d` units of seconds: ninety-six thousand
/// a second.
proof fn lemma_bits_of_audio(d: nat, keep: bool) -> (r: nat)
    requires
        double::one() <= 32 * d,
        d <= 0x100_0000_0000 * double::one(),
    ensures
        plan::audio_bits(Real::Finite(false, d), keep) == Real::Finite(false, r),
        r * 0x20_0000_0000_0000 <= (if keep {
            96000nat
        } else {
            0
        }) * d * 0x20_0000_0000_0001,
        (if keep {
            96000nat
        } else {
            0
        }) * d * 0x1F_FFFF_FFFF_FFFF <= r * 0x20_0000_0000_0000,
{
    let o = double::one();
    lemma_one_is_huge();
    double::lemma_whole_exact(0);
    double::lemma_whole_exact(96);
    double::lemma_whole_exact(96000);
    if keep {
        let a = lemma_times(96 * o, 1000);
        double::lemma_whole_exact(1000);
        assert(1000 * (96 * o) == 96000 * vstd::arithmetic::power2::pow2(1074));
        double::lemma_nearest_exact(96000, 1074);
        assert(a == 96000 * o);
        let r = lemma_times(d, 96000);
        assert((96000 * o) * d == d * (96000 * o)) by (nonlinear_arith);
        r
    } else {
        assert(0 * o == 0);
        0
    }
}

/// A bitrate that fills the cap, in thousands of bits a second.
proof fn lemma_full(x: nat, d: nat, v: int)
    requires
        0 < d,
        v == double::floor(
            double::quotient(
                double::quotient(Real::Finite(false, x), Real::Finite(false, d)),
                double::whole(1000),
            ),
        ),
        v < i64::MAX,
    ensures
        0 <= v,
        x * 0x1_0000_0000_0000 <= (v + 1) * 1000 * d * 0x1_0000_0000_0001,
{
    let o = double::one();
    lemma_one_is_huge();
    double::lemma_whole_exact(1000);
    let y = double::nearest(x * o, d);
    let z = double::nearest(y, 1000);
    double::lemma_nearest_scaled(y, 1000, o);
    assert(y * o == o * y && o * 1000 == 1000 * o) by (nonlinear_arith);
    vstd::arithmetic::div_mod::lemma_fundamental_div_mod(z as int, o as int);
    assert(y < double::overflow() && z < double::overflow());
    let n = (v + 1) * o;
    let (e, m) = (z as int / o as int, z as int % o as int);
    assert(z < n) by (nonlinear_arith)
        requires
            v == e,
            z == o * e + m,
            m < o,
            n == (v + 1) * o,
    ;
    crate::coverage::lemma_not_below(x * o, d);
    crate::coverage::lemma_not_below(y, 1000);
    assert(n >= o) by (nonlinear_arith)
        requires
            n == (v + 1) * o,
            v >= 0,
    ;
    assert(y * 0x1F_FFFF_FFFF_FFFF <= 1000 * n * 0x20_0000_0000_0000);
    assert((y + 1) * 0x2_0000_0000_0000 <= 1000 * n * 0x2_0000_0000_0001);
    let w = d * (y + 1);
    assert(w * 0x2_0000_0000_0000 <= (1000 * d * n) * 0x2_0000_0000_0001) by (nonlinear_arith)
        requires
            w == d * (y + 1),
            (y + 1) * 0x2_0000_0000_0000 <= 1000 * n * 0x2_0000_0000_0001,
    ;
    assert(d * y + d == w) by (nonlinear_arith)
        requires
            w == d * (y + 1),
    ;
    let q = (v + 1) * 1000 * d;
    assert(1000 * d * n == o * q) by (nonlinear_arith)
        requires
            n == (v + 1) * o,
            q == (v + 1) * 1000 * d,
    ;
    assert(x * o == o * x) by (nonlinear_arith);
    assert((o * x) * 0x1_0000_0000_0000 <= (o * q) * 0x1_0000_0000_0001);
    assert((o * x) * 0x1_0000_0000_0000 == o * (x * 0x1_0000_0000_0000)) by (nonlinear_arith);
    assert((o * q) * 0x1_0000_0000_0001 == o * (q * 0x1_0000_0000_0001)) by (nonlinear_arith);
    assert(q >= 0) by (nonlinear_arith)
        requires
            q == (v + 1) * 1000 * d,
            v >= 0,
    ;
    lemma_factor_dropped(x * 0x1_0000_0000_0000, q as nat * 0x1_0000_0000_0001, o);
}

/// What lasts longer than a twentieth of a second.
proof fn lemma_long(d: nat)
    requires
        double::less(double::literal(5, 100), Real::Finite(false, d)),
    ensures
        double::one() <= 32 * d,
{
    let o = double::one();
    lemma_one_is_huge();
    lemma_rounding(5 * o, 100);
    assert(1 * vstd::arithmetic::power2::pow2(1074) == o);
    double::lemma_nearest_at_most(5 * o, 100, 1, 1074);
}

proof fn lemma_rest_in_range(cap: nat, sound: nat, m: nat)
    requires
        sound < cap,
        m <= 0x1_0000_0000 * double::one(),
        cap * 100 * 0x1_0000_0000_0000 <= m * 8388608 * 96 * 0x1_0000_0000_0001,
    ensures
        double::nearest((cap - sound) as nat, 1) <= 0x1000_0000_0000_0000 * double::one(),
        double::nearest((cap - sound) as nat, 1) < double::overflow(),
{
    let o = double::one();
    lemma_one_is_huge();
    let most: nat = 0x1000_0000_0000_0000;
    vstd::arithmetic::power2::lemma2_to64_rest();
    vstd::arithmetic::power2::lemma_pow2_adds(60, 1074);
    assert((cap - sound) <= 1 * (1 * (most * o)));
    double::lemma_nearest_at_most((cap - sound) as nat, 1, 1, 1134);
}

proof fn lemma_lower(
    mb: Real,
    keep: bool,
    full: int,
    x: nat,
    d: nat,
    cap: nat,
    sound: nat,
    audio: nat,
    g: nat,
)
    requires
        double::one() <= 32 * d,
        full == plan::budget_kbps(mb, Real::Finite(false, d), keep),
        full >= 120,
        double::sum(
            plan::budget_bits(mb),
            double::negated(plan::audio_bits(Real::Finite(false, d), keep)),
        ) == Real::Finite(false, x),
        x <= 0x1000_0000_0000_0000 * double::one(),
        sound < cap,
        (cap - sound) * 0x1F_FFFF_FFFF_FFFF <= (1 * x + 1) * 0x20_0000_0000_0000,
        sound * 0x20_0000_0000_0000 <= audio * 1000 * d * 0x20_0000_0000_0001,
        g * 0x1_0000_0000_0000 <= cap * 100 * 0x1_0000_0000_0001,
    ensures
        g * 0x100_0000_0000 <= ((full + 1 + audio) * 1000) * d * 100 * 0x100_0000_0001,
{
    reveal(plan::budget_kbps);
    let o = double::one();
    lemma_one_is_huge();
    let q = double::quotient(Real::Finite(false, x), Real::Finite(false, d));
    let v = double::floor(double::quotient(q, double::whole(1000)));
    assert(v < i64::MAX) by {
        if v >= i64::MAX {
            plan::lemma_budget_rounding(x, d, v);
            let w = (v * 1000) * d;
            assert(w >= 0xFA_0000_0000_0000_0000 * d) by (nonlinear_arith)
                requires
                    w == (v * 1000) * d,
                    v >= 0x100_0000_0000_0000 * 0x40,
            ;
            assert(false) by (nonlinear_arith)
                requires
                    w >= 0xFA_0000_0000_0000_0000 * d,
                    w * 0x8_0000_0000_0000 <= x * 0x8_0000_0000_0001,
                    x <= 0x1000_0000_0000_0000 * o,
                    o <= 32 * d,
                    d > 0,
            ;
        }
    }
    lemma_full(x, d, v);
    let f = full as nat;
    let (y, z) = (audio * 1000 * d, (f + 1) * 1000 * d);
    assert((v + 1) * 1000 * d <= z) by (nonlinear_arith)
        requires
            z == (f + 1) * 1000 * d,
            v <= f,
    ;
    assert(z >= 1000 * d) by (nonlinear_arith)
        requires
            z == (f + 1) * 1000 * d,
    ;
    let w = (v + 1) * 1000 * d;
    assert(x * 0x1_0000_0000_0000 <= z * 0x1_0000_0000_0001);
    assert(((f + 1 + audio) * 1000) * d == z + y) by (nonlinear_arith)
        requires
            z == (f + 1) * 1000 * d,
            y == audio * 1000 * d,
    ;
    assert(g * 0x100_0000_0000 <= (z + y) * 100 * 0x100_0000_0001) by (nonlinear_arith)
        requires
            x * 0x1_0000_0000_0000 <= z * 0x1_0000_0000_0001,
            z >= 0x1_0000_0000_0000_0000,
            (cap - sound) * 0x1F_FFFF_FFFF_FFFF <= (x + 1) * 0x20_0000_0000_0000,
            sound * 0x20_0000_0000_0000 <= y * 0x20_0000_0000_0001,
            g * 0x1_0000_0000_0000 <= cap * 100 * 0x1_0000_0000_0001,
            y >= 0,
    ;
}

proof fn lemma_upper(n: nat, x: nat, d: nat, cap: nat, sound: nat, audio: nat, g: nat)
    requires
        n > 120,
        double::one() <= 32 * d,
        sound < cap,
        x == double::nearest((cap - sound) as nat, 1),
        (n * 1000) * d * 0x8_0000_0000_0000 <= x * 0x8_0000_0000_0001,
        audio * 1000 * d * 0x1F_FFFF_FFFF_FFFF <= sound * 0x20_0000_0000_0000,
        cap * 100 * 0x1_0000_0000_0000 <= g * 0x1_0000_0000_0001,
    ensures
        ((n + audio) * 1000) * d * 100 * 0x100_0000_0000 <= g * 0x100_0000_0001,
{
    let o = double::one();
    lemma_one_is_huge();
    let (y, z) = (audio * 1000 * d, (n * 1000) * d);
    assert(z >= 32 * d) by (nonlinear_arith)
        requires
            z == (n * 1000) * d,
            n >= 1,
    ;
    plan::lemma_quotient_excess((cap - sound) as nat, 1);
    assert(1 * x == x);
    assert(((n + audio) * 1000) * d == z + y) by (nonlinear_arith)
        requires
            z == (n * 1000) * d,
            y == audio * 1000 * d,
    ;
    assert((z + y) * 100 * 0x100_0000_0000 <= g * 0x100_0000_0001) by (nonlinear_arith)
        requires
            z * 0x8_0000_0000_0000 <= x * 0x8_0000_0000_0001,
            x * 0x20_0000_0000_0000 <= (cap - sound) * 0x20_0000_0000_0001,
            y * 0x1F_FFFF_FFFF_FFFF <= sound * 0x20_0000_0000_0000,
            cap * 100 * 0x1_0000_0000_0000 <= g * 0x1_0000_0000_0001,
            sound <= cap,
    ;
}

/// Where the audio alone takes all bits, the video gets the minimum.
proof fn lemma_no_rest(mb: Real, d: nat, keep: bool, cap: nat, sound: nat)
    requires
        d > 0,
        cap <= sound,
        plan::budget_bits(mb) == Real::Finite(false, cap),
        plan::audio_bits(Real::Finite(false, d), keep) == Real::Finite(false, sound),
    ensures
        plan::budget_kbps(mb, Real::Finite(false, d), keep) == 120,
{
    reveal(plan::budget_kbps);
    let o = double::one();
    lemma_one_is_huge();
    double::lemma_whole_exact(1000);
    assert(0 * o == 0);
    double::lemma_nearest_none(0, d);
    double::lemma_nearest_none(0, 1000 * o);
}

/// The byte cap is kept, and used. Of a cap of `m` units of megabytes (a tenth
/// of one at least), 96 bits in a hundred go to the streams; what the video and
/// the audio of a plan come to over `d` units of seconds stays within them where
/// the video is above its minimum, and a bitrate of one thousand bits more would
/// not. (The plan may spend less where more would not be seen.) All of this but
/// for a rounding of less than one part in `2^40`, for caps below `2^32`
/// megabytes and durations below `2^40` seconds.
pub proof fn law_cap_holds_video_and_audio(info: MediaInfo, s: Settings, m: nat, d: nat)
    requires
        s.max_mb is Some,
        double::greater(s.max_mb->0@, double::literal(1, 10)) == Real::Finite(false, m),
        double::one() <= 16 * m,
        m <= 0x1_0000_0000 * double::one(),
        info.duration_s@ == Real::Finite(false, d),
        double::less(double::literal(5, 100), info.duration_s@),
        d <= 0x100_0000_0000 * double::one(),
        plan::planned_kbps(info, s) <= u32::MAX,
    ensures
        ({
            let p = plan::planned(info, s);
            let audio: nat = match p.audio_kbps {
                Some(a) => a as nat,
                None => 0,
            };
            let full = plan::budget_kbps(s.max_mb->0@, info.duration_s@, info.has_audio
                && !s.strip_audio);
            let t: nat = 0x100_0000_0000;
            p.rate matches RateControl::TwoPass { video_kbps: n } && {
                &&& n <= full
                &&& n > 120 ==> ((n + audio) * 1000) * d * 100 * t <= m * 8388608 * 96 * (t + 1)
                &&& m * 8388608 * 96 * t <= ((full + 1 + audio) * 1000) * d * 100 * (t + 1)
            }
        }),
{
    let o = double::one();
    let (mb, dur, keep) = (s.max_mb->0@, info.duration_s@, plan::keeps_audio(info, s));
    let full = plan::budget_kbps(mb, dur, keep);
    let n = plan::planned_kbps(info, s);
    lemma_one_is_huge();
    plan::law_rate_control(info, s);
    plan::law_kbps_bounds(info, s);
    lemma_budget_range(mb, dur, keep);
    lemma_long(d);
    let cap = lemma_bits_of_cap(mb, m);
    let sound = lemma_bits_of_audio(d, keep);
    let audio: nat = if keep {
        96
    } else {
        0
    };
    assert((if keep {
        96000nat
    } else {
        0
    }) == audio * 1000);
    let left = double::sum(
        plan::budget_bits(mb),
        double::negated(plan::audio_bits(dur, keep)),
    );
    let g = m * 8388608 * 96;
    if cap > sound {
        let x = double::nearest((cap - sound) as nat, 1);
        crate::coverage::lemma_not_below((cap - sound) as nat, 1);
        lemma_rest_in_range(cap, sound, m);
        assert(left == Real::Finite(false, x));
        lemma_lower(mb, keep, full, x, d, cap, sound, audio, g);
        if n > 120 {
            plan::law_budget_is_kept(info, s, x, d);
            lemma_upper(n as nat, x, d, cap, sound, audio, g);
        }
    } else {
        lemma_no_rest(mb, d, keep, cap, sound);
        assert(full == 120);
        let f = full as nat;
        assert(audio * 1000 * d <= (f + 1 + audio) * 1000 * d) by (nonlinear_arith);
        let (y, z) = (audio * 1000 * d, (f + 1 + audio) * 1000 * d);
        assert(g * 0x100_0000_0000 <= z * 100 * 0x100_0000_0001);
    }
}

} // verus!
