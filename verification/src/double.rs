//! Double-precision numbers (IEEE 754 binary64), computed with integers.
//!
//! Durations, frame rates and size caps are binary64 numbers. Every operation
//! here gives the very number that the processor gives, and its contract says
//! which one that is: the exact result, rounded once to the nearest number
//! that binary64 has, ties to even.
//!
//! A finite number is a whole count of *units*, where one unit is the smallest
//! positive binary64 number, two to the power of -1074.
use vstd::arithmetic::div_mod::*;
use vstd::arithmetic::mul::*;
use vstd::arithmetic::power2::*;
use vstd::prelude::*;

verus! {

/// A binary64 number, by its bit pattern. Every pattern is a number.
#[derive(Clone, Copy, Debug, PartialEq, Eq, Structural)]
pub struct Double {
    pub bits: u64,
}

/// What a binary64 number stands for.
pub enum Real {
    /// Not a number.
    Nan,
    /// Positive infinity, or negative infinity when the flag is set.
    Infinite(bool),
    /// A count of units, negated when the flag is set.
    Finite(bool, nat),
}

/// The number one, in units.
pub open spec fn one() -> nat {
    pow2(1074)
}

/// The least count of units that binary64 no longer holds: two to the power
/// of 1024.
pub open spec fn overflow() -> nat {
    pow2(2098)
}

/// How many low bits of `q` lie beyond a significand of 53 bits.
pub open spec fn excess(q: nat) -> nat
    decreases q,
{
    if q < 0x20_0000_0000_0000 {
        0
    } else {
        1 + excess(q / 2)
    }
}

/// The count of units nearest to `num / den` among those with at most 53
/// significant bits; of two that are equally near, the one whose significand
/// is even.
pub open spec fn nearest(num: nat, den: nat) -> nat {
    let step = pow2(excess(num / den));
    let t = num / (den * step);
    let rest = num % (den * step);
    if 2 * rest > den * step || (2 * rest == den * step && t % 2 == 1) {
        (t + 1) * step
    } else {
        t * step
    }
}

/// The number with the given sign and count of units, or infinity where
/// binary64 does not reach that far.
pub open spec fn finite(neg: bool, units: nat) -> Real {
    if units >= overflow() {
        Real::Infinite(neg)
    } else {
        Real::Finite(neg, units)
    }
}

/// Units of the magnitude pattern `mag`: an exponent field above 52 bits of
/// fraction.
pub open spec fn units(mag: nat) -> nat {
    if mag < 0x10_0000_0000_0000 {
        mag
    } else {
        (0x10_0000_0000_0000 + mag % 0x10_0000_0000_0000) * pow2(
            (mag / 0x10_0000_0000_0000 - 1) as nat,
        )
    }
}

impl View for Double {
    type V = Real;

    open spec fn view(&self) -> Real {
        let neg = self.bits >= 0x8000_0000_0000_0000;
        let mag = (self.bits % 0x8000_0000_0000_0000) as nat;
        if mag > 0x7FF0_0000_0000_0000 {
            Real::Nan
        } else if mag == 0x7FF0_0000_0000_0000 {
            Real::Infinite(neg)
        } else {
            Real::Finite(neg, units(mag))
        }
    }
}

/// Reads `num / den` to lie at `p` times two to the power of `t`: exactly
/// there, or, when `sticky` is set, strictly between there and the next `p`.
pub open spec fn lies_at(num: nat, den: nat, p: nat, t: int, sticky: bool) -> bool {
    let up = pow2(if t > 0 { t as nat } else { 0 });
    let down = pow2(if t < 0 { (-t) as nat } else { 0 });
    &&& p * (up * den) <= num * down < (p + 1) * (up * den)
    &&& sticky <==> num * down != p * (up * den)
}

proof fn lemma_pow2_step(e: nat)
    ensures
        pow2(e + 1) == 2 * pow2(e),
        pow2(e) > 0,
{
    lemma_pow2_unfold(e + 1);
    lemma_pow2_pos(e);
}

proof fn lemma_pow2_zero()
    ensures
        pow2(0) == 1,
{
    lemma2_to64();
}

proof fn lemma_excess(q: nat, s: nat)
    requires
        s == 0 ==> q < 0x20_0000_0000_0000,
        s > 0 ==> 0x10_0000_0000_0000 <= q / pow2(s) < 0x20_0000_0000_0000,
    ensures
        excess(q) == s,
    decreases s,
{
    if s > 0 {
        let e = (s - 1) as nat;
        lemma_pow2_step(e);
        lemma_div_denominator(q as int, 2, pow2(e) as int);
        assert(q / pow2(s) == (q / 2) / pow2(e));
        assert(q >= 0x20_0000_0000_0000) by {
            if q < 0x20_0000_0000_0000 {
                lemma_div_is_ordered(q as int, 0x1F_FFFF_FFFF_FFFF, pow2(s) as int);
                lemma_pow2_pos(e);
                lemma_div_is_ordered_by_denominator(0x1F_FFFF_FFFF_FFFF, 2, pow2(s) as int);
                assert(false);
            }
        }
        if e == 0 {
            lemma_pow2_zero();
            assert((q / 2) / 1 == q / 2);
        }
        lemma_excess(q / 2, e);
    }
}

/// Doubling `p` and lowering the exponent leaves the place where it was.
proof fn lemma_lies_at_doubled(num: nat, den: nat, p: nat, t: int)
    requires
        lies_at(num, den, p, t, false),
        den > 0,
    ensures
        lies_at(num, den, 2 * p, t - 1, false),
{
    let up = pow2(if t > 0 { t as nat } else { 0 });
    let down = pow2(if t < 0 { (-t) as nat } else { 0 });
    if t > 0 {
        lemma_pow2_step((t - 1) as nat);
        let up2 = pow2((t - 1) as nat);
        lemma_pow2_zero();
        assert(p * (up * den) == (2 * p) * (up2 * den)) by (nonlinear_arith)
            requires
                up == 2 * up2,
        ;
        assert((2 * p + 1) * (up2 * den) > (2 * p) * (up2 * den)) by (nonlinear_arith)
            requires
                up2 > 0,
                den > 0,
        ;
    } else {
        lemma_pow2_zero();
        lemma_pow2_step((-t) as nat);
        let down2 = pow2((1 - t) as nat);
        assert(num * down2 == 2 * (num * down)) by (nonlinear_arith)
            requires
                down2 == 2 * down,
        ;
        assert((2 * p) * (up * den) == 2 * (p * (up * den))) by (nonlinear_arith);
        assert((2 * p + 1) * (up * den) > (2 * p) * (up * den)) by (nonlinear_arith)
            requires
                up == 1,
                den > 0,
        ;
    }
}

/// Cutting the low `k` bits off `p`, and rounding by what was cut, rounds the
/// place itself.
proof fn lemma_cut_rounds(num: nat, den: nat, p: nat, t: int, sticky: bool, k: nat)
    requires
        den > 0,
        lies_at(num, den, p, t, sticky),
        t + k >= 0,
        sticky ==> k >= 1,
        t + k == 0 ==> p / pow2(k) < 0x20_0000_0000_0000,
        t + k > 0 ==> 0x10_0000_0000_0000 <= p / pow2(k) < 0x20_0000_0000_0000,
    ensures
        nearest(num, den) == rounded(p, k, sticky) * pow2((t + k) as nat),
{
    let up = pow2(if t > 0 { t as nat } else { 0 });
    let down = pow2(if t < 0 { (-t) as nat } else { 0 });
    let cut = pow2(k);
    let step = pow2((t + k) as nat);
    let ad = up * den;
    let scaled = den * step;
    let m = p / cut;
    let r = p % cut;
    lemma_pow2_zero();
    lemma_pow2_pos(k);
    lemma_pow2_pos((t + k) as nat);
    lemma_pow2_pos(if t > 0 { t as nat } else { 0 });
    lemma_pow2_pos(if t < 0 { (-t) as nat } else { 0 });
    assert(cut * up == step * down) by {
        if t >= 0 {
            lemma_pow2_adds(k, t as nat);
            assert(step * 1 == step);
        } else {
            lemma_pow2_adds((t + k) as nat, (-t) as nat);
            assert(cut * 1 == cut);
        }
    }
    assert(cut * ad == scaled * down) by (nonlinear_arith)
        requires
            cut * up == step * down,
            ad == up * den,
            scaled == den * step,
    ;
    assert(ad > 0) by (nonlinear_arith)
        requires
            ad == up * den,
            up > 0,
            den > 0,
    ;
    assert(scaled > 0) by (nonlinear_arith)
        requires
            scaled == den * step,
            step > 0,
            den > 0,
    ;
    lemma_fundamental_div_mod(p as int, cut as int);
    let r0: int = num * down - p * ad;
    assert(0 <= r0 < ad) by (nonlinear_arith)
        requires
            r0 == num * down - p * ad,
            p * ad <= num * down < (p + 1) * ad,
    ;
    let rest: int = num - m * scaled;
    assert(rest * down == r * ad + r0) by (nonlinear_arith)
        requires
            rest == num - m * scaled,
            r0 == num * down - p * ad,
            p == cut * m + r,
            cut * ad == scaled * down,
    ;
    assert(0 <= rest < scaled) by (nonlinear_arith)
        requires
            rest * down == r * ad + r0,
            0 <= r0 < ad,
            0 <= r < cut,
            cut * ad == scaled * down,
            down > 0,
    ;
    lemma_fundamental_div_mod_converse(num as int, scaled as int, m as int, rest);
    // The step of the place is the step of the cut.
    lemma_div_denominator(num as int, den as int, step as int);
    assert(num / den / step == m);
    if t + k == 0 {
        assert((num / den) / 1 == num / den);
    }
    lemma_excess(num / den, (t + k) as nat);
    // What was cut compares with half a step as the rest does.
    assert(2 * rest * down == 2 * (r * ad) + 2 * r0) by (nonlinear_arith)
        requires
            rest * down == r * ad + r0,
    ;
    if k == 0 {
        assert(r == 0);
        assert(r0 == 0);
        assert(rest == 0) by (nonlinear_arith)
            requires
                rest * down == r * ad + r0,
                r == 0,
                r0 == 0,
                down > 0,
        ;
    } else {
        lemma_pow2_step((k - 1) as nat);
        let half = pow2((k - 1) as nat);
        if r < half {
            assert(2 * rest < scaled) by (nonlinear_arith)
                requires
                    rest * down == r * ad + r0,
                    r0 < ad,
                    r + 1 <= half,
                    cut == 2 * half,
                    cut * ad == scaled * down,
                    down > 0,
                    ad > 0,
            ;
        } else if r > half {
            assert(2 * rest > scaled) by (nonlinear_arith)
                requires
                    rest * down == r * ad + r0,
                    r0 >= 0,
                    r >= half + 1,
                    cut == 2 * half,
                    cut * ad == scaled * down,
                    down > 0,
                    ad > 0,
            ;
        } else if r0 > 0 {
            assert(2 * rest > scaled) by (nonlinear_arith)
                requires
                    rest * down == r * ad + r0,
                    r0 > 0,
                    r == half,
                    cut == 2 * half,
                    cut * ad == scaled * down,
                    down > 0,
            ;
        } else {
            assert(2 * rest == scaled) by (nonlinear_arith)
                requires
                    rest * down == r * ad + r0,
                    r0 == 0,
                    r == half,
                    cut == 2 * half,
                    cut * ad == scaled * down,
                    down > 0,
            ;
        }
    }
}

/// `p` without its low `k` bits, rounded by them; `sticky` says that more was
/// lost below them.
pub open spec fn rounded(p: nat, k: nat, sticky: bool) -> nat {
    let m = p / pow2(k);
    let r = p % pow2(k);
    if 2 * r > pow2(k) || (2 * r == pow2(k) && (sticky || m % 2 == 1)) {
        m + 1
    } else {
        m
    }
}

/// The pattern `shift * 2^52 + m` counts `m * 2^shift` units, and reaches the
/// pattern of infinity exactly where binary64 ends.
proof fn lemma_packed(m: nat, shift: nat)
    requires
        m <= 0x20_0000_0000_0000,
        shift > 0 ==> m >= 0x10_0000_0000_0000,
    ensures
        shift * 0x10_0000_0000_0000 + m < 0x7FF0_0000_0000_0000 ==> units(
            shift * 0x10_0000_0000_0000 + m,
        ) == m * pow2(shift) && m * pow2(shift) < overflow(),
        shift * 0x10_0000_0000_0000 + m >= 0x7FF0_0000_0000_0000 ==> m * pow2(shift) >= overflow(),
{
    let mag = shift * 0x10_0000_0000_0000 + m;
    lemma_pow2_zero();
    lemma2_to64_rest();
    assert(pow2(52) == 0x10_0000_0000_0000 && pow2(53) == 0x20_0000_0000_0000);
    lemma_pow2_pos(shift);
    if mag < 0x7FF0_0000_0000_0000 {
        if m < 0x10_0000_0000_0000 {
            assert(m * pow2(0) == m);
            lemma_pow2_strictly_increases(52, 2098);
        } else if m < 0x20_0000_0000_0000 {
            assert(mag / 0x10_0000_0000_0000 == shift + 1);
            assert(mag % 0x10_0000_0000_0000 == m - 0x10_0000_0000_0000);
            lemma_pow2_adds(53, shift);
            assert(shift + 53 <= 2098);
            if shift + 53 < 2098 {
                lemma_pow2_strictly_increases(shift + 53, 2098);
            }
            assert(m * pow2(shift) < pow2(53) * pow2(shift)) by (nonlinear_arith)
                requires
                    m < pow2(53),
                    pow2(shift) > 0,
            ;
        } else {
            assert(mag / 0x10_0000_0000_0000 == shift + 2);
            assert(mag % 0x10_0000_0000_0000 == 0);
            lemma_pow2_step(shift);
            assert(0x10_0000_0000_0000 * pow2(shift + 1) == m * pow2(shift));
            lemma_pow2_adds(53, shift);
            lemma_pow2_strictly_increases(shift + 53, 2098);
        }
    } else if shift >= 2046 {
        lemma_pow2_adds(52, shift);
        if shift > 2046 {
            lemma_pow2_strictly_increases(2098, shift + 52);
        }
        assert(m * pow2(shift) >= pow2(52) * pow2(shift)) by (nonlinear_arith)
            requires
                m >= pow2(52),
        ;
    } else {
        assert(shift == 2045 && m == 0x20_0000_0000_0000);
        lemma_pow2_adds(53, 2045);
    }
}

/// A place below half a unit rounds to nothing.
proof fn lemma_below_half(num: nat, den: nat, p: nat, t: int, sticky: bool)
    requires
        den > 0,
        lies_at(num, den, p, t, sticky),
        p < 0x8000_0000_0000_0000_0000_0000_0000_0000,
        t <= -128,
    ensures
        nearest(num, den) == 0,
{
    let down = pow2((-t) as nat);
    lemma_pow2_zero();
    lemma2_to64();
    lemma_pow2_adds(64, 64);
    assert(pow2(128) == 0x1_0000_0000_0000_0000_0000_0000_0000_0000) by (nonlinear_arith)
        requires
            pow2(128) == pow2(64) * pow2(64),
            pow2(64) == 0x1_0000_0000_0000_0000,
    ;
    if t < -128 {
        lemma_pow2_strictly_increases(128, (-t) as nat);
    }
    assert(1 * den == den);
    assert(2 * num < den) by (nonlinear_arith)
        requires
            num * down < (p + 1) * den,
            p + 1 <= 0x8000_0000_0000_0000_0000_0000_0000_0000,
            down >= 0x1_0000_0000_0000_0000_0000_0000_0000_0000,
            den > 0,
    ;
    assert(num / den == 0) by {
        lemma_basic_div(num as int, den as int);
    }
    assert(den * 1 == den);
    lemma_small_mod(num, den);
}

/// The number of `m * 2^shift` units.
fn pack(neg: bool, m: u64, shift: u64) -> (r: Double)
    requires
        m <= 0x20_0000_0000_0000,
        shift > 0 ==> m >= 0x10_0000_0000_0000,
    ensures
        r@ == finite(neg, m as nat * pow2(shift as nat)),
{
    let sign: u64 = if neg {
        0x8000_0000_0000_0000
    } else {
        0
    };
    proof {
        lemma_packed(m as nat, shift as nat);
    }
    if shift > 2046 || shift * 0x10_0000_0000_0000 + m >= 0x7FF0_0000_0000_0000 {
        Double { bits: sign + 0x7FF0_0000_0000_0000 }
    } else {
        Double { bits: sign + (shift * 0x10_0000_0000_0000 + m) }
    }
}

/// Doubles `place` until it has 55 bits, and lowers the exponent with it.
fn widen(place: u128, exponent: i32, Ghost(num): Ghost<nat>, Ghost(den): Ghost<nat>) -> (r: (
    u128,
    i32,
))
    requires
        den > 0,
        0 < place < 0x8000_0000_0000_0000_0000_0000_0000_0000,
        -9000 <= exponent <= 9000,
        lies_at(num, den, place as nat, exponent as int, false),
    ensures
        0x40_0000_0000_0000 <= r.0 < 0x8000_0000_0000_0000_0000_0000_0000_0000,
        exponent - 54 <= r.1 <= exponent,
        lies_at(num, den, r.0 as nat, r.1 as int, false),
{
    let mut p: u128 = place;
    let mut t: i32 = exponent;
    let ghost mut n: nat = 0;
    proof {
        lemma_pow2_zero();
    }
    while p < 0x40_0000_0000_0000
        invariant
            den > 0,
            0 < p < 0x8000_0000_0000_0000_0000_0000_0000_0000,
            -9000 <= exponent <= 9000,
            n <= 54,
            t == exponent - n,
            p >= pow2(n),
            lies_at(num, den, p as nat, t as int, false),
        decreases 54 - n,
    {
        proof {
            lemma2_to64_rest();
            lemma_lies_at_doubled(num, den, p as nat, t as int);
            lemma_pow2_step(n);
            n = n + 1;
        }
        p = p * 2;
        t = t - 1;
    }
    (p, t)
}

/// Cuts low bits off `p` until 53 are left and no exponent below zero; gives
/// what is left, the bits that went, as a power of two, and their number.
fn cut_bits(p: u128, t: i32) -> (r: (u128, u128, i32))
    requires
        0x40_0000_0000_0000 <= p < 0x8000_0000_0000_0000_0000_0000_0000_0000,
        -127 <= t <= 9000,
    ensures
        1 <= r.2 <= 127,
        t + r.2 >= 0,
        r.1 == pow2(r.2 as nat),
        r.1 > 0,
        r.0 == p as nat / pow2(r.2 as nat),
        r.0 < 0x20_0000_0000_0000,
        t + r.2 > 0 ==> r.0 >= 0x10_0000_0000_0000,
{
    let mut m: u128 = p;
    let mut cut: u128 = 1;
    let mut k: i32 = 0;
    proof {
        lemma_pow2_zero();
    }
    while m >= 0x20_0000_0000_0000 || t + k < 0
        invariant
            0x40_0000_0000_0000 <= p < 0x8000_0000_0000_0000_0000_0000_0000_0000,
            -127 <= t <= 9000,
            0 <= k <= 127,
            cut == pow2(k as nat),
            cut > 0,
            m == p as nat / pow2(k as nat),
            k > 0 ==> m >= 0x10_0000_0000_0000 || t + k <= 0,
            k == 0 ==> m == p,
        decreases 127 - k,
    {
        proof {
            lemma2_to64();
            lemma2_to64_rest();
            lemma_pow2_adds(64, 63);
            assert(pow2(127) == 0x8000_0000_0000_0000_0000_0000_0000_0000) by (nonlinear_arith)
                requires
                    pow2(127) == pow2(64) * pow2(63),
                    pow2(64) == 0x1_0000_0000_0000_0000,
                    pow2(63) == 0x8000_0000_0000_0000,
            ;
            if k == 127 {
                lemma_basic_div(p as int, pow2(127) as int);
                assert(false);
            }
            if k < 126 {
                lemma_pow2_strictly_increases((k + 1) as nat, 127);
            }
            lemma_pow2_step(k as nat);
            lemma_div_denominator(p as int, pow2(k as nat) as int, 2);
            assert(pow2(k as nat) * 2 == pow2((k + 1) as nat));
        }
        m = m / 2;
        cut = cut * 2;
        k = k + 1;
    }
    (m, cut, k)
}

proof fn lemma_zero_place(num: nat, den: nat, t: int)
    requires
        den > 0,
        lies_at(num, den, 0, t, false),
    ensures
        nearest(num, den) == 0,
{
    let up = pow2(if t > 0 { t as nat } else { 0 });
    let down = pow2(if t < 0 { (-t) as nat } else { 0 });
    lemma_pow2_zero();
    lemma_pow2_pos(if t < 0 { (-t) as nat } else { 0 });
    assert(num == 0) by (nonlinear_arith)
        requires
            num * down == 0 * (up * den),
            down > 0,
    ;
    lemma_basic_div(0, den as int);
    lemma_small_mod(0, den);
    assert(excess(num / den) == 0);
    assert(den * 1 == den);
    assert(num / (den * pow2(0)) == 0 && num % (den * pow2(0)) == 0);
}

/// Rounds the place of `num / den` to a number.
fn round_place(
    neg: bool,
    place: u128,
    exponent: i32,
    sticky: bool,
    Ghost(num): Ghost<nat>,
    Ghost(den): Ghost<nat>,
) -> (r: Double)
    requires
        den > 0,
        place < 0x8000_0000_0000_0000_0000_0000_0000_0000,
        -9000 <= exponent <= 9000,
        sticky ==> place >= 0x40_0000_0000_0000,
        lies_at(num, den, place as nat, exponent as int, sticky),
    ensures
        r@ == finite(neg, nearest(num, den)),
{
    if place == 0 {
        proof {
            lemma_zero_place(num, den, exponent as int);
            assert(0 * pow2(0) == 0);
        }
        return pack(neg, 0, 0);
    }
    let (p, t) = if sticky {
        (place, exponent)
    } else {
        widen(place, exponent, Ghost(num), Ghost(den))
    };
    if t < -127 {
        proof {
            lemma_below_half(num, den, p as nat, t as int, sticky);
            assert(0 * pow2(0) == 0);
        }
        return pack(neg, 0, 0);
    }
    let (m, cut, k) = cut_bits(p, t);
    let rest: u128 = p % cut;
    let up: bool = rest > cut - rest || (rest == cut - rest && (sticky || m % 2 == 1));
    let m: u64 = if up {
        m as u64 + 1
    } else {
        m as u64
    };
    proof {
        lemma_cut_rounds(num, den, p as nat, t as int, sticky, k as nat);
    }
    pack(neg, m, (t + k) as u64)
}

/// The sum of two numbers.
pub open spec fn sum(a: Real, b: Real) -> Real {
    match (a, b) {
        (Real::Nan, _) => Real::Nan,
        (_, Real::Nan) => Real::Nan,
        (Real::Infinite(x), Real::Infinite(y)) => if x == y {
            a
        } else {
            Real::Nan
        },
        (Real::Infinite(_), _) => a,
        (_, Real::Infinite(_)) => b,
        (Real::Finite(x, i), Real::Finite(y, j)) => if x == y {
            finite(x, nearest(i + j, 1))
        } else if i > j {
            finite(x, nearest((i - j) as nat, 1))
        } else if i < j {
            finite(y, nearest((j - i) as nat, 1))
        } else {
            Real::Finite(false, 0)
        },
    }
}

/// The number with the other sign.
pub open spec fn negated(a: Real) -> Real {
    match a {
        Real::Nan => Real::Nan,
        Real::Infinite(x) => Real::Infinite(!x),
        Real::Finite(x, i) => Real::Finite(!x, i),
    }
}

/// The product of two numbers.
pub open spec fn product(a: Real, b: Real) -> Real {
    match (a, b) {
        (Real::Nan, _) => Real::Nan,
        (_, Real::Nan) => Real::Nan,
        (Real::Infinite(x), Real::Infinite(y)) => Real::Infinite(x != y),
        (Real::Infinite(x), Real::Finite(y, j)) => if j == 0 {
            Real::Nan
        } else {
            Real::Infinite(x != y)
        },
        (Real::Finite(x, i), Real::Infinite(y)) => if i == 0 {
            Real::Nan
        } else {
            Real::Infinite(x != y)
        },
        (Real::Finite(x, i), Real::Finite(y, j)) => finite(x != y, nearest(i * j, one())),
    }
}

/// The quotient of two numbers.
pub open spec fn quotient(a: Real, b: Real) -> Real {
    match (a, b) {
        (Real::Nan, _) => Real::Nan,
        (_, Real::Nan) => Real::Nan,
        (Real::Infinite(_), Real::Infinite(_)) => Real::Nan,
        (Real::Infinite(x), Real::Finite(y, _)) => Real::Infinite(x != y),
        (Real::Finite(x, _), Real::Infinite(y)) => Real::Finite(x != y, 0),
        (Real::Finite(x, i), Real::Finite(y, j)) => if j > 0 {
            finite(x != y, nearest(i * one(), j))
        } else if i > 0 {
            Real::Infinite(x != y)
        } else {
            Real::Nan
        },
    }
}

/// Whether the first number is less than the second.
pub open spec fn less(a: Real, b: Real) -> bool {
    match (a, b) {
        (Real::Nan, _) => false,
        (_, Real::Nan) => false,
        (Real::Infinite(x), Real::Infinite(y)) => x && !y,
        (Real::Infinite(x), _) => x,
        (_, Real::Infinite(y)) => !y,
        (Real::Finite(x, i), Real::Finite(y, j)) => if x {
            if y {
                i > j
            } else {
                i > 0 || j > 0
            }
        } else {
            !y && i < j
        },
    }
}

/// The number nearest to the whole number `n`.
pub open spec fn whole(n: nat) -> Real {
    finite(false, nearest(n * one(), 1))
}

/// The number written as the decimal fraction `n / d`.
pub open spec fn literal(n: nat, d: nat) -> Real {
    finite(false, nearest(n * one(), d))
}

/// A place that is met exactly.
proof fn lemma_exact_place(num: nat, den: nat, p: nat, t: int)
    requires
        den > 0,
        num * pow2(if t < 0 { (-t) as nat } else { 0 }) == p * (pow2(
            if t > 0 { t as nat } else { 0 },
        ) * den),
    ensures
        lies_at(num, den, p, t, false),
{
    let up = pow2(if t > 0 { t as nat } else { 0 });
    lemma_pow2_pos(if t > 0 { t as nat } else { 0 });
    assert(p * (up * den) < (p + 1) * (up * den)) by (nonlinear_arith)
        requires
            up > 0,
            den > 0,
    ;
}

/// Splits a power of two over an exponent of either sign.
pub proof fn lemma_pow2_balance(a: nat, b: nat, t: int)
    requires
        a == b + t,
    ensures
        pow2(a) * pow2(if t < 0 { (-t) as nat } else { 0 }) == pow2(b) * pow2(
            if t > 0 { t as nat } else { 0 },
        ),
{
    lemma_pow2_zero();
    if t >= 0 {
        lemma_pow2_adds(b, t as nat);
        assert(pow2(a) * 1 == pow2(a));
    } else {
        lemma_pow2_adds(a, (-t) as nat);
        assert(pow2(b) * 1 == pow2(b));
    }
}

impl Double {
    /// The number of units of a finite number, as a significand and a power of
    /// two.
    pub(crate) fn parts(self) -> (r: (u64, u32))
        requires
            self@ is Finite,
        ensures
            self@->Finite_1 == r.0 as nat * pow2(r.1 as nat),
            r.0 < 0x20_0000_0000_0000,
            r.1 <= 2045,
            r.1 > 0 ==> r.0 >= 0x10_0000_0000_0000,
    {
        let mag: u64 = self.bits % 0x8000_0000_0000_0000;
        if mag < 0x10_0000_0000_0000 {
            proof {
                lemma_pow2_zero();
                assert(mag * pow2(0) == mag);
            }
            (mag, 0)
        } else {
            (
                0x10_0000_0000_0000 + mag % 0x10_0000_0000_0000,
                (mag / 0x10_0000_0000_0000 - 1) as u32,
            )
        }
    }

    /// Not a number.
    pub fn nan() -> (r: Double)
        ensures
            r@ == Real::Nan,
    {
        Double { bits: 0x7FF8_0000_0000_0000 }
    }

    /// Infinity of the given sign.
    pub fn infinity(neg: bool) -> (r: Double)
        ensures
            r@ == Real::Infinite(neg),
    {
        if neg {
            Double { bits: 0xFFF0_0000_0000_0000 }
        } else {
            Double { bits: 0x7FF0_0000_0000_0000 }
        }
    }

    pub fn is_nan(self) -> (r: bool)
        ensures
            r == (self@ is Nan),
    {
        self.bits % 0x8000_0000_0000_0000 > 0x7FF0_0000_0000_0000
    }

    pub fn is_infinite(self) -> (r: bool)
        ensures
            r == (self@ is Infinite),
    {
        self.bits % 0x8000_0000_0000_0000 == 0x7FF0_0000_0000_0000
    }

    /// The sign of a number.
    pub(crate) fn sign(self) -> (r: bool)
        ensures
            self@ is Infinite ==> r == self@->Infinite_0,
            self@ is Finite ==> r == self@->Finite_0,
    {
        self.bits >= 0x8000_0000_0000_0000
    }

    /// The number with the other sign.
    pub fn neg(self) -> (r: Double)
        ensures
            r@ == negated(self@),
    {
        if self.bits >= 0x8000_0000_0000_0000 {
            Double { bits: self.bits - 0x8000_0000_0000_0000 }
        } else {
            Double { bits: self.bits + 0x8000_0000_0000_0000 }
        }
    }

    /// The number nearest to `n`.
    pub fn from_u64(n: u64) -> (r: Double)
        ensures
            r@ == whole(n as nat),
    {
        proof {
            lemma_pow2_zero();
            lemma_exact_place(n as nat * one(), 1, n as nat, 1074);
        }
        round_place(false, n as u128, 1074, false, Ghost(n as nat * one()), Ghost(1))
    }

    /// The product of two numbers.
    pub fn mul(self, other: Double) -> (r: Double)
        ensures
            r@ == product(self@, other@),
    {
        if self.is_nan() || other.is_nan() {
            return Double::nan();
        }
        let neg: bool = self.sign() != other.sign();
        if self.is_infinite() {
            if !other.is_infinite() && other.is_zero() {
                return Double::nan();
            }
            return Double::infinity(neg);
        }
        if other.is_infinite() {
            if self.is_zero() {
                return Double::nan();
            }
            return Double::infinity(neg);
        }
        let (ma, sa) = self.parts();
        let (mb, sb) = other.parts();
        let t: i32 = sa as i32 + sb as i32 - 1074;
        let ghost i = self@->Finite_1;
        let ghost j = other@->Finite_1;
        proof {
            let p = ma as nat * mb as nat;
            assert(p < 0x20_0000_0000_0000 * 0x20_0000_0000_0000) by (nonlinear_arith)
                requires
                    p == ma as nat * mb as nat,
                    ma < 0x20_0000_0000_0000,
                    mb < 0x20_0000_0000_0000,
            ;
            lemma_pow2_adds(sa as nat, sb as nat);
            lemma_pow2_balance((sa + sb) as nat, 1074, t as int);
            let up = pow2(if t > 0 { t as nat } else { 0 });
            let down = pow2(if t < 0 { (-t) as nat } else { 0 });
            assert(i * j * down == p * (up * one())) by (nonlinear_arith)
                requires
                    i == ma as nat * pow2(sa as nat),
                    j == mb as nat * pow2(sb as nat),
                    p == ma as nat * mb as nat,
                    pow2(sa as nat) * pow2(sb as nat) * down == one() * up,
            ;
            lemma_pow2_pos(1074);
            lemma_exact_place(i * j, one(), p, t as int);
        }
        round_place(neg, ma as u128 * mb as u128, t, false, Ghost(i * j), Ghost(one()))
    }

    /// Whether a finite number is zero.
    pub(crate) fn is_zero(self) -> (r: bool)
        requires
            self@ is Finite,
        ensures
            r == (self@->Finite_1 == 0),
    {
        let (m, s) = self.parts();
        proof {
            lemma_pow2_pos(s as nat);
            assert((m as nat * pow2(s as nat) == 0) == (m == 0)) by (nonlinear_arith)
                requires
                    pow2(s as nat) > 0,
            ;
        }
        m == 0
    }

    /// Doubles a significand until it has 108 bits.
    fn raise(m: u64) -> (r: (u128, u32))
        requires
            0 < m < 0x20_0000_0000_0000,
        ensures
            r.0 == m as nat * pow2(r.1 as nat),
            0x800_0000_0000_0000_0000_0000_0000 <= r.0 < 0x1000_0000_0000_0000_0000_0000_0000,
            r.1 <= 107,
    {
        let mut p: u128 = m as u128;
        let mut j: u32 = 0;
        proof {
            lemma_pow2_zero();
            assert(m as nat * pow2(0) == m);
        }
        while p < 0x800_0000_0000_0000_0000_0000_0000
            invariant
                m > 0,
                p == m as nat * pow2(j as nat),
                p >= pow2(j as nat),
                p < 0x1000_0000_0000_0000_0000_0000_0000,
                j <= 107,
            decreases 107 - j,
        {
            proof {
                lemma2_to64();
                lemma2_to64_rest();
                lemma_pow2_adds(64, 43);
                assert(pow2(107) == 0x800_0000_0000_0000_0000_0000_0000) by (nonlinear_arith)
                    requires
                        pow2(107) == pow2(64) * pow2(43),
                        pow2(64) == 0x1_0000_0000_0000_0000,
                        pow2(43) == 0x800_0000_0000,
                ;
                lemma_pow2_step(j as nat);
                assert(m as nat * pow2((j + 1) as nat) == 2 * (m as nat * pow2(j as nat)))
                    by (nonlinear_arith)
                    requires
                        pow2((j + 1) as nat) == 2 * pow2(j as nat),
                ;
            }
            p = p * 2;
            j = j + 1;
        }
        (p, j)
    }

    /// The quotient of two numbers.
    pub fn div(self, other: Double) -> (r: Double)
        ensures
            r@ == quotient(self@, other@),
    {
        if self.is_nan() || other.is_nan() {
            return Double::nan();
        }
        let neg: bool = self.sign() != other.sign();
        if self.is_infinite() {
            if other.is_infinite() {
                return Double::nan();
            }
            return Double::infinity(neg);
        }
        if other.is_infinite() {
            proof {
                lemma_pow2_pos(2098);
                assert(0 * pow2(0) == 0);
            }
            return pack(neg, 0, 0);
        }
        if other.is_zero() {
            if self.is_zero() {
                return Double::nan();
            }
            return Double::infinity(neg);
        }
        let (ma, sa) = self.parts();
        let (mb, sb) = other.parts();
        let ghost i = self@->Finite_1;
        let ghost j = other@->Finite_1;
        if ma == 0 {
            proof {
                lemma_pow2_pos(2098);
                assert(0 * pow2(sa as nat) == 0);
                assert(0 * one() == 0);
                assert(0 * pow2(0) == 0);
                lemma_zero_place_at_zero(j);
            }
            return pack(neg, 0, 0);
        }
        let (high, lift) = Double::raise(ma);
        let mb: u128 = mb as u128;
        let q: u128 = high / mb;
        let rest: u128 = high % mb;
        let t: i32 = sa as i32 - lift as i32 + 1074 - sb as i32;
        proof {
            assert(mb > 0) by {
                assert(0 * pow2(sb as nat) == 0);
            }
            lemma_fundamental_div_mod(high as int, mb as int);
            assert(q >= 0x40_0000_0000_0000) by (nonlinear_arith)
                requires
                    high == mb * q + rest,
                    rest < mb,
                    mb < 0x20_0000_0000_0000,
                    high >= 0x800_0000_0000_0000_0000_0000_0000,
            ;
            assert(q <= high) by (nonlinear_arith)
                requires
                    high == mb * q + rest,
                    rest >= 0,
                    mb >= 1,
                    q >= 0,
            ;
            lemma_pow2_adds(sa as nat, 1074);
            lemma_pow2_adds(lift as nat, sb as nat);
            lemma_pow2_balance((sa + 1074) as nat, (lift + sb) as nat, t as int);
            lemma_pow2_pos(if t > 0 { t as nat } else { 0 });
            lemma_pow2_pos(sb as nat);
            let up = pow2(if t > 0 { t as nat } else { 0 });
            let down = pow2(if t < 0 { (-t) as nat } else { 0 });
            let num = i * one();
            let w = pow2(sb as nat) * up;
            assert(num * down == high as nat * w) by (nonlinear_arith)
                requires
                    num == i * one(),
                    i == ma as nat * pow2(sa as nat),
                    high == ma as nat * pow2(lift as nat),
                    pow2(sa as nat) * one() * down == pow2(lift as nat) * pow2(sb as nat) * up,
                    w == pow2(sb as nat) * up,
            ;
            assert(up * j == mb as nat * w) by (nonlinear_arith)
                requires
                    j == mb as nat * pow2(sb as nat),
                    w == pow2(sb as nat) * up,
            ;
            assert(w > 0) by (nonlinear_arith)
                requires
                    w == pow2(sb as nat) * up,
                    pow2(sb as nat) > 0,
                    up > 0,
            ;
            assert(q as nat * (up * j) + rest as nat * w == num * down) by (nonlinear_arith)
                requires
                    num * down == high as nat * w,
                    up * j == mb as nat * w,
                    high == mb * q + rest,
            ;
            assert((q as nat + 1) * (up * j) == q as nat * (up * j) + mb as nat * w)
                by (nonlinear_arith)
                requires
                    up * j == mb as nat * w,
            ;
            assert(rest as nat * w < mb as nat * w) by (nonlinear_arith)
                requires
                    rest < mb,
                    w > 0,
            ;
            assert((rest as nat * w == 0) == (rest == 0)) by (nonlinear_arith)
                requires
                    w > 0,
            ;
        }
        round_place(neg, q, t, rest != 0, Ghost(i * one()), Ghost(j))
    }
}

/// A significand with more powers of two behind it counts more units.
proof fn lemma_shift_orders(ma: nat, sa: nat, mb: nat, sb: nat)
    requires
        sa < sb,
        ma < 0x20_0000_0000_0000,
        mb >= 0x10_0000_0000_0000,
    ensures
        ma * pow2(sa) < mb * pow2(sb),
{
    lemma_pow2_step(sa);
    lemma_pow2_pos(sa);
    if sa + 1 < sb {
        lemma_pow2_strictly_increases(sa + 1, sb);
    }
    assert(ma * pow2(sa) < mb * pow2(sb)) by (nonlinear_arith)
        requires
            ma < 0x20_0000_0000_0000,
            mb >= 0x10_0000_0000_0000,
            pow2(sb) >= 2 * pow2(sa),
            pow2(sa) > 0,
    ;
}

/// Two to the power of `d`.
pub(crate) fn power(d: u32) -> (r: u128)
    requires
        d <= 74,
    ensures
        r == pow2(d as nat),
        0 < r <= 0x400_0000_0000_0000_0000,
{
    let mut r: u128 = 1;
    let mut n: u32 = 0;
    proof {
        lemma_pow2_zero();
        lemma2_to64();
        lemma2_to64_rest();
        lemma_pow2_adds(64, 10);
        assert(pow2(74) == 0x400_0000_0000_0000_0000);
    }
    while n < d
        invariant
            n <= d <= 74,
            r == pow2(n as nat),
            0 < r <= 0x400_0000_0000_0000_0000,
            pow2(74) == 0x400_0000_0000_0000_0000,
        decreases d - n,
    {
        proof {
            lemma_pow2_step(n as nat);
            if n + 1 < 74 {
                lemma_pow2_strictly_increases((n + 1) as nat, 74);
            }
        }
        r = r * 2;
        n = n + 1;
    }
    r
}

/// Whether one count of units is less than another, both as a significand and
/// a power of two.
fn fewer_units(ma: u64, sa: u32, mb: u64, sb: u32) -> (r: bool)
    requires
        ma < 0x20_0000_0000_0000,
        mb < 0x20_0000_0000_0000,
        sa > 0 ==> ma >= 0x10_0000_0000_0000,
        sb > 0 ==> mb >= 0x10_0000_0000_0000,
    ensures
        r == (ma as nat * pow2(sa as nat) < mb as nat * pow2(sb as nat)),
        r ==> sa <= sb,
        !r ==> sb <= sa,
{
    proof {
        if sa < sb {
            lemma_shift_orders(ma as nat, sa as nat, mb as nat, sb as nat);
        } else if sb < sa {
            lemma_shift_orders(mb as nat, sb as nat, ma as nat, sa as nat);
        } else {
            lemma_pow2_pos(sa as nat);
            assert((ma as nat * pow2(sa as nat) < mb as nat * pow2(sa as nat)) == (ma < mb))
                by (nonlinear_arith)
                requires
                    pow2(sa as nat) > 0,
            ;
        }
    }
    if sa == sb {
        ma < mb
    } else {
        sa < sb
    }
}

/// Adds the lesser count of units to the greater, or takes it away.
fn combine(neg: bool, mh: u64, sh: u32, ml: u64, sl: u32, plus: bool) -> (r: Double)
    requires
        mh < 0x20_0000_0000_0000,
        ml < 0x20_0000_0000_0000,
        sl <= sh <= 2045,
        sh > 0 ==> mh >= 0x10_0000_0000_0000,
        ml as nat * pow2(sl as nat) <= mh as nat * pow2(sh as nat),
    ensures
        plus ==> r@ == finite(
            neg,
            nearest(mh as nat * pow2(sh as nat) + ml as nat * pow2(sl as nat), 1),
        ),
        !plus ==> r@ == finite(
            neg,
            nearest((mh as nat * pow2(sh as nat) - ml as nat * pow2(sl as nat)) as nat, 1),
        ),
{
    let ghost high = mh as nat * pow2(sh as nat);
    let ghost low = ml as nat * pow2(sl as nat);
    let ghost num: nat = if plus {
        high + low
    } else {
        (high - low) as nat
    };
    proof {
        lemma_pow2_zero();
    }
    if sh - sl <= 74 {
        let scale: u128 = power(sh - sl);
        proof {
            lemma_pow2_adds((sh - sl) as nat, sl as nat);
            lemma_pow2_pos(sl as nat);
            assert(high == (mh as nat * scale as nat) * pow2(sl as nat)) by (nonlinear_arith)
                requires
                    high == mh as nat * pow2(sh as nat),
                    pow2(sh as nat) == scale as nat * pow2(sl as nat),
            ;
            assert(mh as nat * scale as nat <= 0x20_0000_0000_0000 * 0x400_0000_0000_0000_0000
                - 0x400_0000_0000_0000_0000) by (nonlinear_arith)
                requires
                    mh <= 0x20_0000_0000_0000 - 1,
                    scale <= 0x400_0000_0000_0000_0000,
            ;
            assert(ml <= mh as nat * scale as nat) by (nonlinear_arith)
                requires
                    ml as nat * pow2(sl as nat) <= (mh as nat * scale as nat) * pow2(sl as nat),
                    pow2(sl as nat) > 0,
            ;
        }
        let lifted: u128 = mh as u128 * scale;
        let place: u128 = if plus {
            lifted + ml as u128
        } else {
            lifted - ml as u128
        };
        proof {
            assert(num == place as nat * pow2(sl as nat)) by (nonlinear_arith)
                requires
                    plus ==> num == high + low && place == lifted + ml,
                    !plus ==> num == high - low && place == lifted - ml,
                    high == lifted as nat * pow2(sl as nat),
                    low == ml as nat * pow2(sl as nat),
            ;
            lemma_exact_place(num, 1, place as nat, sl as int);
        }
        round_place(neg, place, sl as i32, false, Ghost(num), Ghost(1))
    } else {
        let t: i32 = sh as i32 - 21;
        let sticky: bool = ml != 0;
        let place: u128 = if plus || !sticky {
            mh as u128 * 0x20_0000
        } else {
            mh as u128 * 0x20_0000 - 1
        };
        proof {
            lemma2_to64();
            lemma2_to64_rest();
            lemma_pow2_adds(t as nat, 21);
            lemma_pow2_pos(t as nat);
            lemma_pow2_pos(sl as nat);
            assert(high == (mh as nat * 0x20_0000) * pow2(t as nat)) by (nonlinear_arith)
                requires
                    high == mh as nat * pow2(sh as nat),
                    pow2(sh as nat) == pow2(t as nat) * 0x20_0000,
            ;
            lemma_pow2_adds(53, sl as nat);
            lemma_pow2_strictly_increases((53 + sl) as nat, t as nat);
            assert(low < pow2(t as nat)) by (nonlinear_arith)
                requires
                    low == ml as nat * pow2(sl as nat),
                    ml < pow2(53),
                    pow2(sl as nat) > 0,
                    pow2(53) * pow2(sl as nat) < pow2(t as nat),
            ;
            assert((low == 0) == (ml == 0)) by (nonlinear_arith)
                requires
                    low == ml as nat * pow2(sl as nat),
                    pow2(sl as nat) > 0,
            ;
            let step = pow2(t as nat);
            assert(num * 1 == num && step * 1 == step);
            if plus || !sticky {
                assert((place as nat + 1) * step == high + step) by (nonlinear_arith)
                    requires
                        high == place as nat * step,
                ;
            } else {
                assert((place as nat + 1) * step == high && place as nat * step == high - step)
                    by (nonlinear_arith)
                    requires
                        high == (place as nat + 1) * step,
                ;
            }
        }
        round_place(neg, place, t, sticky, Ghost(num), Ghost(1))
    }
}

impl Double {
    /// The sum of two numbers.
    pub fn add(self, other: Double) -> (r: Double)
        ensures
            r@ == sum(self@, other@),
    {
        if self.is_nan() || other.is_nan() {
            return Double::nan();
        }
        if self.is_infinite() {
            if other.is_infinite() && self.sign() != other.sign() {
                return Double::nan();
            }
            return self;
        }
        if other.is_infinite() {
            return other;
        }
        let (ma, sa) = self.parts();
        let (mb, sb) = other.parts();
        let same: bool = self.sign() == other.sign();
        if fewer_units(ma, sa, mb, sb) {
            combine(other.sign(), mb, sb, ma, sa, same)
        } else if !same && !fewer_units(mb, sb, ma, sa) {
            proof {
                lemma_pow2_pos(2098);
                assert(0 * pow2(0) == 0);
            }
            pack(false, 0, 0)
        } else {
            combine(self.sign(), ma, sa, mb, sb, same)
        }
    }

    /// The difference of two numbers.
    pub fn sub(self, other: Double) -> (r: Double)
        ensures
            r@ == sum(self@, negated(other@)),
    {
        self.add(other.neg())
    }

    /// Whether this number is less than the other.
    pub fn lt(self, other: Double) -> (r: bool)
        ensures
            r == less(self@, other@),
    {
        if self.is_nan() || other.is_nan() {
            return false;
        }
        if self.is_infinite() {
            return self.sign() && !(other.is_infinite() && other.sign());
        }
        if other.is_infinite() {
            return !other.sign();
        }
        let (ma, sa) = self.parts();
        let (mb, sb) = other.parts();
        if self.sign() {
            if other.sign() {
                fewer_units(mb, sb, ma, sa)
            } else {
                !self.is_zero() || !other.is_zero()
            }
        } else {
            !other.sign() && fewer_units(ma, sa, mb, sb)
        }
    }
}

/// The greater of two numbers; the other one where one is not a number.
pub open spec fn greater(a: Real, b: Real) -> Real {
    if a is Nan || less(a, b) {
        b
    } else {
        a
    }
}

/// The lesser of two numbers; the other one where one is not a number.
pub open spec fn lesser(a: Real, b: Real) -> Real {
    if a is Nan || less(b, a) {
        b
    } else {
        a
    }
}

/// The whole part of a number, no less than zero and no more than `max`; zero
/// for what is not a number.
pub open spec fn whole_part(v: Real, max: nat) -> nat {
    match v {
        Real::Nan => 0,
        Real::Infinite(neg) => if neg {
            0
        } else {
            max
        },
        Real::Finite(neg, k) => if neg {
            0
        } else if k / one() > max {
            max
        } else {
            k / one()
        },
    }
}

/// A whole number, brought into the range of `i64`.
pub open spec fn clamp_i64(n: int) -> int {
    if n < i64::MIN {
        i64::MIN as int
    } else if n > i64::MAX {
        i64::MAX as int
    } else {
        n
    }
}

/// The least whole number that holds `k` units.
pub open spec fn ceiling(k: nat) -> nat {
    if k % one() == 0 {
        k / one()
    } else {
        k / one() + 1
    }
}

/// The number, rounded down to a whole one, in the range of `i64`; zero for
/// what is not a number.
pub open spec fn floor(v: Real) -> int {
    match v {
        Real::Nan => 0,
        Real::Infinite(neg) => if neg {
            i64::MIN as int
        } else {
            i64::MAX as int
        },
        Real::Finite(neg, k) => if neg {
            clamp_i64(-ceiling(k))
        } else {
            clamp_i64((k / one()) as int)
        },
    }
}

/// The number, rounded up to a whole one, in the range of `i64`; zero for
/// what is not a number.
pub open spec fn ceil(v: Real) -> int {
    match v {
        Real::Nan => 0,
        Real::Infinite(neg) => if neg {
            i64::MIN as int
        } else {
            i64::MAX as int
        },
        Real::Finite(neg, k) => if neg {
            clamp_i64(-(k / one()))
        } else {
            clamp_i64(ceiling(k) as int)
        },
    }
}

/// The number without its fraction, in the range of `i64`; zero for what is
/// not a number.
pub open spec fn truncated(v: Real) -> int {
    match v {
        Real::Finite(true, _) => ceil(v),
        _ => floor(v),
    }
}

/// The whole part of a count of units, up to `u64::MAX`, and whether a
/// fraction is left.
fn split_units(m: u64, s: u32) -> (r: (u64, bool))
    requires
        m < 0x20_0000_0000_0000,
        s <= 2045,
        s > 0 ==> m >= 0x10_0000_0000_0000,
    ensures
        r.0 == if (m as nat * pow2(s as nat)) / one() > u64::MAX {
            u64::MAX as nat
        } else {
            (m as nat * pow2(s as nat)) / one()
        },
        r.1 == ((m as nat * pow2(s as nat)) % one() != 0),
{
    let ghost k = m as nat * pow2(s as nat);
    proof {
        lemma_pow2_pos(1074);
        lemma_pow2_zero();
        lemma2_to64();
        lemma2_to64_rest();
    }
    if s >= 1074 {
        let ghost d = (s - 1074) as nat;
        proof {
            lemma_pow2_adds(d, 1074);
            assert(k == (m as nat * pow2(d)) * one()) by (nonlinear_arith)
                requires
                    k == m as nat * pow2(s as nat),
                    pow2(s as nat) == pow2(d) * one(),
            ;
            lemma_fundamental_div_mod_converse(
                k as int,
                one() as int,
                (m as nat * pow2(d)) as int,
                0,
            );
        }
        if s - 1074 > 11 {
            proof {
                lemma_pow2_adds(12, 52);
                if d > 12 {
                    lemma_pow2_strictly_increases(12, d);
                }
                assert(m as nat * pow2(d) > u64::MAX) by (nonlinear_arith)
                    requires
                        m >= 0x10_0000_0000_0000,
                        pow2(d) >= 0x1000,
                ;
            }
            (u64::MAX, false)
        } else {
            proof {
                if d < 11 {
                    lemma_pow2_strictly_increases(d, 11);
                }
                assert(m as nat * pow2(d) <= 0x1F_FFFF_FFFF_FFFF * 0x800) by (nonlinear_arith)
                    requires
                        m <= 0x1F_FFFF_FFFF_FFFF,
                        pow2(d) <= 0x800,
                ;
            }
            ((m as u128 * power(s - 1074)) as u64, false)
        }
    } else {
        let ghost d = (1074 - s) as nat;
        proof {
            lemma_pow2_adds(d, s as nat);
            lemma_pow2_pos(d);
            lemma_pow2_pos(s as nat);
            lemma_fundamental_div_mod(m as int, pow2(d) as int);
            let q = m as nat / pow2(d);
            let r = m as nat % pow2(d);
            assert(k == q * one() + r * pow2(s as nat)) by (nonlinear_arith)
                requires
                    k == m as nat * pow2(s as nat),
                    m as nat == pow2(d) * q + r,
                    one() == pow2(d) * pow2(s as nat),
            ;
            assert(r * pow2(s as nat) < one()) by (nonlinear_arith)
                requires
                    r < pow2(d),
                    pow2(s as nat) > 0,
                    one() == pow2(d) * pow2(s as nat),
            ;
            assert(r * pow2(s as nat) >= 0);
            lemma_fundamental_div_mod_converse(
                k as int,
                one() as int,
                q as int,
                (r * pow2(s as nat)) as int,
            );
            assert((r * pow2(s as nat) == 0) == (r == 0)) by (nonlinear_arith)
                requires
                    pow2(s as nat) > 0,
            ;
            assert(q <= m) by (nonlinear_arith)
                requires
                    m as nat == pow2(d) * q + r,
                    pow2(d) >= 1,
            ;
        }
        if 1074 - s > 53 {
            proof {
                lemma_pow2_strictly_increases(53, d);
                lemma_basic_div(m as int, pow2(d) as int);
                lemma_small_mod(m as nat, pow2(d));
            }
            (0, m != 0)
        } else {
            let scale: u128 = power(1074 - s);
            ((m as u128 / scale) as u64, m as u128 % scale != 0)
        }
    }
}

impl Double {
    /// The greater of two numbers.
    pub fn max(self, other: Double) -> (r: Double)
        ensures
            r@ == greater(self@, other@),
    {
        if self.is_nan() || self.lt(other) {
            other
        } else {
            self
        }
    }

    /// The lesser of two numbers.
    pub fn min(self, other: Double) -> (r: Double)
        ensures
            r@ == lesser(self@, other@),
    {
        if self.is_nan() || other.lt(self) {
            other
        } else {
            self
        }
    }

    /// The number written as the decimal fraction `n / d`.
    pub fn ratio(n: u32, d: u32) -> (r: Double)
        requires
            d > 0,
        ensures
            r@ == literal(n as nat, d as nat),
    {
        proof {
            lemma_whole_exact(n as nat);
            lemma_whole_exact(d as nat);
            lemma_pow2_pos(1074);
            let o = one();
            assert(d as nat * o > 0) by (nonlinear_arith)
                requires
                    d > 0,
                    o > 0,
            ;
            lemma_nearest_scaled(n as nat * o, d as nat, o);
            assert((n as nat * o) * o == o * (n as nat * o)) by (nonlinear_arith);
            assert(o * d as nat == d as nat * o) by (nonlinear_arith);
        }
        Double::from_u64(n as u64).div(Double::from_u64(d as u64))
    }

    /// The whole part, in the range of `u64`.
    pub fn to_u64(self) -> (r: u64)
        ensures
            r == whole_part(self@, u64::MAX as nat),
    {
        if self.is_nan() || self.sign() {
            return 0;
        }
        if self.is_infinite() {
            return u64::MAX;
        }
        let (m, s) = self.parts();
        split_units(m, s).0
    }

    /// The whole part, in the range of `u32`.
    pub fn to_u32(self) -> (r: u32)
        ensures
            r == whole_part(self@, u32::MAX as nat),
    {
        let w: u64 = self.to_u64();
        if w > u32::MAX as u64 {
            u32::MAX
        } else {
            w as u32
        }
    }

    /// The whole part, in the range of `u8`.
    pub fn to_u8(self) -> (r: u8)
        ensures
            r == whole_part(self@, u8::MAX as nat),
    {
        let w: u64 = self.to_u64();
        if w > u8::MAX as u64 {
            u8::MAX
        } else {
            w as u8
        }
    }

    /// The number rounded to a whole one: down, or up when `up` is set.
    fn to_i64_by(self, up: bool) -> (r: i64)
        ensures
            up ==> r == ceil(self@),
            !up ==> r == floor(self@),
    {
        if self.is_nan() {
            return 0;
        }
        let neg: bool = self.sign();
        if self.is_infinite() {
            return if neg {
                i64::MIN
            } else {
                i64::MAX
            };
        }
        let (m, s) = self.parts();
        let (w, frac) = split_units(m, s);
        if w >= 0x7FFF_FFFF_FFFF_FFFF {
            if !neg {
                i64::MAX
            } else if w == 0x7FFF_FFFF_FFFF_FFFF && (up || !frac) {
                -i64::MAX
            } else {
                i64::MIN
            }
        } else {
            let away: bool = frac && up != neg;
            let size: i64 = if away {
                w as i64 + 1
            } else {
                w as i64
            };
            if neg {
                -size
            } else {
                size
            }
        }
    }

    /// The number rounded down, in the range of `i64`.
    pub fn floor_i64(self) -> (r: i64)
        ensures
            r == floor(self@),
    {
        self.to_i64_by(false)
    }

    /// The number rounded up, in the range of `i64`.
    pub fn ceil_i64(self) -> (r: i64)
        ensures
            r == ceil(self@),
    {
        self.to_i64_by(true)
    }

    /// The number without its fraction, in the range of `i64`.
    pub fn to_i64(self) -> (r: i64)
        ensures
            r == truncated(self@),
    {
        let up: bool = !self.is_nan() && !self.is_infinite() && self.sign();
        self.to_i64_by(up)
    }
}

/// Scaling both sides of a fraction leaves what it rounds to.
pub proof fn lemma_nearest_scaled(num: nat, den: nat, c: nat)
    requires
        den > 0,
        c > 0,
    ensures
        nearest(c * num, c * den) == nearest(num, den),
{
    lemma_div_multiples(num, den, c);
    let step = pow2(excess(num / den));
    lemma_pow2_pos(excess(num / den));
    assert(den * step > 0) by (nonlinear_arith)
        requires
            den > 0,
            step > 0,
    ;
    lemma_div_multiples(num, den * step, c);
    assert((c * den) * step == c * (den * step)) by (nonlinear_arith);
    let rest = num % (den * step);
    let half = den * step;
    assert((2 * (c * rest) > c * half) == (2 * rest > half)) by (nonlinear_arith)
        requires
            c > 0,
    ;
    assert((2 * (c * rest) == c * half) == (2 * rest == half)) by (nonlinear_arith)
        requires
            c > 0,
    ;
}

proof fn lemma_div_multiples(num: nat, den: nat, c: nat)
    requires
        den > 0,
        c > 0,
    ensures
        (c * num) / (c * den) == num / den,
        (c * num) % (c * den) == c * (num % den),
{
    lemma_fundamental_div_mod(num as int, den as int);
    let q = num / den;
    let r = num % den;
    assert(c * num == q * (c * den) + c * r) by (nonlinear_arith)
        requires
            num == den * q + r,
    ;
    assert(0 <= c * r < c * den) by (nonlinear_arith)
        requires
            r < den,
            r >= 0,
            c > 0,
    ;
    lemma_fundamental_div_mod_converse((c * num) as int, (c * den) as int, q as int, (c * r) as int);
}

/// A count of units with at most 53 significant bits is kept as it is.
pub proof fn lemma_nearest_exact(m: nat, s: nat)
    requires
        m < 0x20_0000_0000_0000,
    ensures
        nearest(m * pow2(s), 1) == m * pow2(s),
    decreases s,
{
    let n = m * pow2(s);
    lemma_pow2_zero();
    lemma_pow2_pos(s);
    if s > 0 && m < 0x10_0000_0000_0000 {
        lemma_pow2_step((s - 1) as nat);
        assert(m * pow2(s) == (2 * m) * pow2((s - 1) as nat)) by (nonlinear_arith)
            requires
                pow2(s) == 2 * pow2((s - 1) as nat),
        ;
        lemma_nearest_exact(2 * m, (s - 1) as nat);
    } else {
        assert(n / 1 == n);
        lemma_fundamental_div_mod_converse(n as int, pow2(s) as int, m as int, 0);
        assert(s == 0 ==> m * 1 == m);
        lemma_excess(n, s);
        assert(1 * pow2(s) == pow2(s));
    }
}

/// A whole number below `2^53` is a number itself.
pub proof fn lemma_whole_exact(n: nat)
    requires
        n < 0x20_0000_0000_0000,
    ensures
        whole(n) == Real::Finite(false, n * one()),
{
    lemma_nearest_exact(n, 1074);
    lemma2_to64_rest();
    lemma_pow2_adds(53, 1074);
    lemma_pow2_strictly_increases(1127, 2098);
    lemma_pow2_pos(1074);
    assert(n * one() < pow2(1127)) by (nonlinear_arith)
        requires
            n < pow2(53),
            pow2(1127) == pow2(53) * one(),
            one() > 0,
    ;
}

/// Whether `r` is the square root of `n`, rounded down.
pub open spec fn is_root(r: nat, n: nat) -> bool {
    r * r <= n < (r + 1) * (r + 1)
}

/// The square root of `n`, rounded down.
pub open spec fn isqrt(n: nat) -> nat {
    choose|r: nat| is_root(r, n)
}

/// The square root of a number. The root of `k` units is the root of
/// `k * 2^1074`, in units; where that is no whole number it counts as half way
/// to the next one, which leaves what it rounds to.
pub open spec fn root(a: Real) -> Real {
    match a {
        Real::Nan => Real::Nan,
        Real::Infinite(neg) => if neg {
            Real::Nan
        } else {
            a
        },
        Real::Finite(neg, k) => if k == 0 {
            a
        } else if neg {
            Real::Nan
        } else {
            let r = isqrt(k * one());
            finite(
                false,
                nearest(
                    if r * r == k * one() {
                        2 * r
                    } else {
                        2 * r + 1
                    },
                    2,
                ),
            )
        },
    }
}

proof fn lemma_root_unique(a: nat, b: nat, n: nat)
    requires
        is_root(a, n),
        is_root(b, n),
    ensures
        a == b,
{
    assert(a == b) by (nonlinear_arith)
        requires
            a * a <= n < (a + 1) * (a + 1),
            b * b <= n < (b + 1) * (b + 1),
    ;
}

pub proof fn lemma_root_exists(n: nat) -> (r: nat)
    ensures
        is_root(r, n),
        isqrt(n) == r,
    decreases n,
{
    let r: nat = if n == 0 {
        0
    } else {
        let r = lemma_root_exists((n - 1) as nat);
        if (r + 1) * (r + 1) <= n {
            assert((r + 2) * (r + 2) > (r + 1) * (r + 1)) by (nonlinear_arith)
                requires
                    r >= 0,
            ;
            assert((r + 1 + 1) == r + 2);
            r + 1
        } else {
            r
        }
    };
    assert(is_root(r, n)) by {
        if n == 0 {
            assert(0nat * 0nat == 0 && 1nat * 1nat == 1);
        }
    }
    lemma_root_unique(isqrt(n), r, n);
    r
}

/// The square root of `n`, rounded down.
fn whole_root(n: u128) -> (r: u128)
    requires
        n < 0x4000_0000_0000_0000_0000_0000_0000_0000,
    ensures
        is_root(r as nat, n as nat),
        r < 0x8000_0000_0000_0000,
{
    let mut r: u128 = 0;
    let mut bit: u128 = 0x4000_0000_0000_0000;
    let ghost mut e: nat = 62;
    proof {
        lemma2_to64_rest();
        assert(0x8000_0000_0000_0000nat * 0x8000_0000_0000_0000nat
            == 0x4000_0000_0000_0000_0000_0000_0000_0000nat);
    }
    while bit > 1
        invariant
            bit == pow2(e),
            bit >= 1,
            r + 2 * bit <= 0x8000_0000_0000_0000,
            r as nat * r as nat <= n,
            n < (r + 2 * bit) as nat * (r + 2 * bit) as nat,
        decreases e,
    {
        proof {
            if e == 0 {
                lemma_pow2_zero();
                assert(false);
            }
            lemma_pow2_step((e - 1) as nat);
            e = (e - 1) as nat;
        }
        r = root_step(n, r, bit);
        bit = bit / 2;
    }
    root_step(n, r, 1)
}

/// Settles one bit of a square root.
fn root_step(n: u128, r: u128, bit: u128) -> (s: u128)
    requires
        bit >= 1,
        r + 2 * bit <= 0x8000_0000_0000_0000,
        r as nat * r as nat <= n,
        n < (r + 2 * bit) as nat * (r + 2 * bit) as nat,
    ensures
        s as nat * s as nat <= n,
        n < (s + bit) as nat * (s + bit) as nat,
        s + bit <= r + 2 * bit,
{
    let c: u128 = r + bit;
    assert(c as nat * c as nat <= 0x8000_0000_0000_0000 * 0x8000_0000_0000_0000)
        by (nonlinear_arith)
        requires
            c <= 0x8000_0000_0000_0000,
    ;
    if c * c <= n {
        c
    } else {
        r
    }
}

impl Double {
    /// The square root of a number.
    pub fn sqrt(self) -> (r: Double)
        ensures
            r@ == root(self@),
    {
        if self.is_nan() {
            return Double::nan();
        }
        if self.is_infinite() {
            return if self.sign() {
                Double::nan()
            } else {
                self
            };
        }
        if self.is_zero() {
            return self;
        }
        if self.sign() {
            return Double::nan();
        }
        let (m, s) = self.parts();
        assert(m > 0) by {
            assert(0 * pow2(s as nat) == 0);
        }
        let (high, lift) = Double::raise(m);
        let e: i32 = s as i32 + 1074 - lift as i32;
        let odd: bool = e % 2 == 1;
        let n: u128 = if odd {
            high * 2
        } else {
            high * 4
        };
        let t: i32 = if odd {
            (e - 1) / 2
        } else {
            (e - 2) / 2
        };
        let p: u128 = whole_root(n);
        let sticky: bool = p * p != n;
        let ghost square = self@->Finite_1 * one();
        let ghost r = isqrt(square);
        let ghost num: nat = if r * r == square {
            2 * r
        } else {
            2 * r + 1
        };
        proof {
            let step = pow2(t as nat);
            lemma_pow2_zero();
            lemma_pow2_pos(t as nat);
            // The square under the root is n, times a power of four.
            lemma_pow2_adds(s as nat, 1074);
            lemma_pow2_adds(lift as nat, e as nat);
            lemma_pow2_adds(t as nat, t as nat);
            if odd {
                lemma_pow2_step((2 * t) as nat);
            } else {
                lemma_pow2_step((2 * t) as nat);
                lemma_pow2_step((2 * t + 1) as nat);
            }
            assert(square == n as nat * (step * step)) by (nonlinear_arith)
                requires
                    square == m as nat * pow2(s as nat) * one(),
                    pow2(s as nat) * one() == pow2(lift as nat) * pow2(e as nat),
                    high == m as nat * pow2(lift as nat),
                    odd ==> n == high * 2 && pow2(e as nat) == 2 * (step * step),
                    !odd ==> n == high * 4 && pow2(e as nat) == 4 * (step * step),
            ;
            let _ = lemma_root_exists(square);
            assert(p >= 0x40_0000_0000_0000) by (nonlinear_arith)
                requires
                    n >= 0x1000_0000_0000_0000_0000_0000_0000,
                    n < (p + 1) * (p + 1),
            ;
            let base = p as nat * step;
            let next = (p as nat + 1) * step;
            assert(base * base <= square < next * next) by (nonlinear_arith)
                requires
                    square == n as nat * (step * step),
                    base == p as nat * step,
                    next == (p as nat + 1) * step,
                    p as nat * p as nat <= n,
                    n < (p as nat + 1) * (p as nat + 1),
                    step > 0,
            ;
            assert(base <= r < next) by (nonlinear_arith)
                requires
                    base * base <= square < next * next,
                    r * r <= square < (r + 1) * (r + 1),
            ;
            assert((base * base == square) == (p as nat * p as nat == n)) by (nonlinear_arith)
                requires
                    square == n as nat * (step * step),
                    base == p as nat * step,
                    step > 0,
            ;
            assert(p as nat * (step * 2) == 2 * base) by (nonlinear_arith)
                requires
                    base == p as nat * step,
            ;
            assert((p as nat + 1) * (step * 2) == 2 * next) by (nonlinear_arith)
                requires
                    next == (p as nat + 1) * step,
            ;
            if !sticky {
                assert(r == base) by (nonlinear_arith)
                    requires
                        base * base == square,
                        r * r <= square < (r + 1) * (r + 1),
                ;
            }
            assert(t >= 0);
            assert(pow2(if t > 0 { t as nat } else { 0 }) == step);
            assert(pow2(if t < 0 { (-t) as nat } else { 0 }) == 1);
            assert(sticky == (num != 2 * base));
            assert(num * 1 == num);
            assert(lies_at(num, 2, p as nat, t as int, sticky));
        }
        round_place(false, p, t, sticky, Ghost(num), Ghost(2))
    }
}

/// What lies beyond the significand lies where the significand begins.
proof fn lemma_excess_bounds(q: nat)
    ensures
        excess(q) == 0 ==> q < 0x20_0000_0000_0000,
        excess(q) > 0 ==> 0x10_0000_0000_0000 * pow2(excess(q)) <= q,
        q < 0x20_0000_0000_0000 * pow2(excess(q)),
    decreases q,
{
    lemma_pow2_zero();
    if q >= 0x20_0000_0000_0000 {
        lemma_excess_bounds(q / 2);
        lemma_pow2_step(excess(q / 2));
    }
}

/// The step at which `num / den` is rounded is one unit, or at most a
/// `2^52`-th of it.
pub proof fn lemma_step_small(num: nat, den: nat)
    requires
        den > 0,
    ensures
        pow2(excess(num / den)) == 1 || den * pow2(excess(num / den)) * 0x10_0000_0000_0000 <= num,
{
    lemma_pow2_zero();
    lemma_excess_bounds(num / den);
    lemma_fundamental_div_mod(num as int, den as int);
    let q = num / den;
    let step = pow2(excess(q));
    if excess(q) > 0 {
        assert(den * step * 0x10_0000_0000_0000 <= num) by (nonlinear_arith)
            requires
                0x10_0000_0000_0000 * step <= q,
                num == den * q + num % den,
                num % den >= 0,
        ;
    }
}

/// Rounding moves a fraction by at most half a step.
pub proof fn lemma_nearest_error(num: nat, den: nat)
    requires
        den > 0,
    ensures
        2 * (den * nearest(num, den)) <= 2 * num + den * pow2(excess(num / den)),
        2 * num <= 2 * (den * nearest(num, den)) + den * pow2(excess(num / den)),
{
    let step = pow2(excess(num / den));
    lemma_pow2_pos(excess(num / den));
    let big = den * step;
    assert(big > 0) by (nonlinear_arith)
        requires
            big == den * step,
            den > 0,
            step > 0,
    ;
    lemma_fundamental_div_mod(num as int, big as int);
    let t = num / big;
    let rest = num % big;
    assert(den * (t * step) == big * t) by (nonlinear_arith)
        requires
            big == den * step,
    ;
    assert(den * ((t + 1) * step) == big * t + big) by (nonlinear_arith)
        requires
            big == den * step,
    ;
}

/// A fraction that is no more than a number of binary64 rounds to no more than
/// it.
pub proof fn lemma_nearest_at_most(num: nat, den: nat, m: nat, s: nat)
    requires
        den > 0,
        m < 0x20_0000_0000_0000,
        num <= den * (m * pow2(s)),
    ensures
        nearest(num, den) <= m * pow2(s),
{
    let y = m * pow2(s);
    let e = excess(num / den);
    let step = pow2(e);
    let big = den * step;
    lemma_pow2_pos(e);
    lemma_pow2_pos(s);
    lemma_excess_bounds(num / den);
    lemma_fundamental_div_mod(num as int, den as int);
    assert(big > 0) by (nonlinear_arith)
        requires
            big == den * step,
            den > 0,
            step > 0,
    ;
    lemma_fundamental_div_mod(num as int, big as int);
    let t = num / big;
    let rest = num % big;
    assert(num / den <= y) by (nonlinear_arith)
        requires
            num == den * (num / den) + num % den,
            num % den >= 0,
            num <= den * y,
            den > 0,
    ;
    if s < e {
        lemma_pow2_step(s);
        if s + 1 < e {
            lemma_pow2_strictly_increases(s + 1, e);
        }
        assert(y < 0x10_0000_0000_0000 * step) by (nonlinear_arith)
            requires
                y == m * pow2(s),
                m < 0x20_0000_0000_0000,
                2 * pow2(s) <= step,
                pow2(s) > 0,
        ;
        assert(false);
    }
    lemma_pow2_adds((s - e) as nat, e);
    let c = m * pow2((s - e) as nat);
    assert(y == c * step) by (nonlinear_arith)
        requires
            y == m * pow2(s),
            pow2(s) == pow2((s - e) as nat) * step,
            c == m * pow2((s - e) as nat),
    ;
    if c >= t + 1 {
        assert((t + 1) * step <= y) by (nonlinear_arith)
            requires
                y == c * step,
                c >= t + 1,
                step > 0,
        ;
        assert(t * step <= (t + 1) * step) by (nonlinear_arith)
            requires
                step > 0,
        ;
    } else {
        assert(c == t && rest == 0) by (nonlinear_arith)
            requires
                num == big * t + rest,
                0 <= rest < big,
                num <= den * (c * step),
                big == den * step,
                c <= t,
                big > 0,
        ;
    }
}

/// Rounding does not pass a number that binary64 has on the way down either.
pub proof fn lemma_nearest_at_least(num: nat, den: nat, m: nat, s: nat)
    requires
        den > 0,
        m < 0x20_0000_0000_0000,
        den * (m * pow2(s)) <= num,
    ensures
        nearest(num, den) >= m * pow2(s),
{
    let y = m * pow2(s);
    let e = excess(num / den);
    let step = pow2(e);
    let big = den * step;
    lemma_pow2_pos(e);
    lemma_pow2_pos(s);
    lemma_excess_bounds(num / den);
    lemma_fundamental_div_mod(num as int, den as int);
    assert(big > 0) by (nonlinear_arith)
        requires
            big == den * step,
            den > 0,
            step > 0,
    ;
    lemma_fundamental_div_mod(num as int, big as int);
    let t = num / big;
    assert(nearest(num, den) >= t * step) by (nonlinear_arith)
        requires
            nearest(num, den) == t * step || nearest(num, den) == (t + 1) * step,
            step > 0,
    ;
    if s < e {
        lemma_pow2_step(s);
        if s + 1 < e {
            lemma_pow2_strictly_increases(s + 1, e);
        }
        assert(y <= 0x10_0000_0000_0000 * step) by (nonlinear_arith)
            requires
                y == m * pow2(s),
                m < 0x20_0000_0000_0000,
                2 * pow2(s) <= step,
        ;
        assert(t >= 0x10_0000_0000_0000) by (nonlinear_arith)
            requires
                num / den >= 0x10_0000_0000_0000 * step,
                num == den * (num / den) + num % den,
                num % den >= 0,
                num == big * t + num % big,
                num % big < big,
                big == den * step,
                den > 0,
                step > 0,
        ;
        assert(t * step >= y) by (nonlinear_arith)
            requires
                t >= 0x10_0000_0000_0000,
                y <= 0x10_0000_0000_0000 * step,
        ;
    } else {
        lemma_pow2_adds(e, (s - e) as nat);
        let k = m * pow2((s - e) as nat);
        assert(y == k * step) by (nonlinear_arith)
            requires
                y == m * pow2(s),
                k == m * pow2((s - e) as nat),
                pow2(s) == step * pow2((s - e) as nat),
        ;
        assert(t >= k) by (nonlinear_arith)
            requires
                den * (k * step) <= num,
                num == big * t + num % big,
                num % big < big,
                big == den * step,
                big > 0,
        ;
        assert(t * step >= y) by (nonlinear_arith)
            requires
                t >= k,
                y == k * step,
        ;
    }
}

/// To add something that is not negative does not make a number less.
pub proof fn lemma_sum_not_less(a: Double, j: nat)
    ensures
        !less(sum(a@, Real::Finite(false, j)), a@),
{
    match a@ {
        Real::Finite(neg, i) => {
            let mag = (a.bits % 0x8000_0000_0000_0000) as nat;
            let (m, s) = if mag < 0x10_0000_0000_0000 {
                (mag, 0)
            } else {
                (
                    0x10_0000_0000_0000 + mag % 0x10_0000_0000_0000,
                    (mag / 0x10_0000_0000_0000 - 1) as nat,
                )
            };
            lemma_pow2_zero();
            assert(m * 1 == m);
            assert(i == m * pow2(s));
            lemma_units_below_overflow(m, s);
            if neg {
                if i > j {
                    lemma_nearest_at_most((i - j) as nat, 1, m, s);
                }
            } else {
                lemma_nearest_at_least(i + j, 1, m, s);
            }
        },
        _ => {},
    }
}

/// Rounding keeps the order of what is rounded.
pub proof fn lemma_nearest_monotone(a: nat, b: nat, c: nat, d: nat)
    requires
        b > 0,
        d > 0,
        a * d <= c * b,
    ensures
        nearest(a, b) <= nearest(c, d),
{
    let y = nearest(c, d);
    let e = excess(c / d);
    let step = pow2(e);
    let big = d * step;
    lemma_pow2_pos(e);
    lemma_pow2_step(e);
    lemma_excess_bounds(c / d);
    lemma_fundamental_div_mod(c as int, d as int);
    assert(big > 0) by (nonlinear_arith)
        requires
            big == d * step,
            d > 0,
            step > 0,
    ;
    lemma_fundamental_div_mod(c as int, big as int);
    let (t, rest) = (c / big, c % big);
    assert(c == t * big + rest) by (nonlinear_arith)
        requires
            c == big * t + rest,
    ;
    assert(t < 0x20_0000_0000_0000) by (nonlinear_arith)
        requires
            c == t * big + rest,
            rest >= 0,
            c == d * (c / d) + c % d,
            c % d < d,
            c / d < 0x20_0000_0000_0000 * step,
            big == d * step,
            d > 0,
            step > 0,
    ;
    if y == (t + 1) * step {
        assert(a <= b * ((t + 1) * step)) by (nonlinear_arith)
            requires
                a * d <= c * b,
                c == t * big + rest,
                rest < big,
                big == d * step,
                d > 0,
        ;
        if t + 1 < 0x20_0000_0000_0000 {
            lemma_nearest_at_most(a, b, t + 1, e);
        } else {
            assert((t + 1) * step == 0x10_0000_0000_0000 * pow2(e + 1));
            lemma_nearest_at_most(a, b, 0x10_0000_0000_0000, e + 1);
        }
    } else if a <= b * (t * step) {
        lemma_nearest_at_most(a, b, t, e);
    } else {
        lemma_nearest_between(a, b, c, d);
    }
}

/// Between a number that is rounded down and what it is rounded to, all is
/// rounded to that.
proof fn lemma_nearest_between(a: nat, b: nat, c: nat, d: nat)
    requires
        b > 0,
        d > 0,
        a * d <= c * b,
        ({
            let step = pow2(excess(c / d));
            let t = c / (d * step);
            nearest(c, d) == t * step && a > b * (t * step)
        }),
    ensures
        nearest(a, b) == nearest(c, d),
{
    let e = excess(c / d);
    let step = pow2(e);
    let (big, biga) = (d * step, b * step);
    lemma_pow2_pos(e);
    lemma_excess_bounds(c / d);
    lemma_fundamental_div_mod(c as int, d as int);
    lemma_fundamental_div_mod(a as int, b as int);
    assert(big > 0 && biga > 0) by (nonlinear_arith)
        requires
            big == d * step,
            biga == b * step,
            d > 0,
            b > 0,
            step > 0,
    ;
    lemma_fundamental_div_mod(c as int, big as int);
    let (t, rest) = (c / big, c % big);
    assert(c == t * big + rest) by (nonlinear_arith)
        requires
            c == big * t + rest,
    ;
    let (qa, qc) = (a / b, c / d);
    assert(qa <= qc) by (nonlinear_arith)
        requires
            a * d <= c * b,
            a == b * qa + a % b,
            a % b >= 0,
            c == d * qc + c % d,
            c % d < d,
            b > 0,
            d > 0,
    ;
    assert(qa >= t * step) by (nonlinear_arith)
        requires
            a > b * (t * step),
            a == b * qa + a % b,
            a % b < b,
            b > 0,
    ;
    assert(excess(qa) == e) by {
        if e > 0 {
            assert(t >= 0x10_0000_0000_0000) by (nonlinear_arith)
                requires
                    qc >= 0x10_0000_0000_0000 * step,
                    c == d * qc + c % d,
                    c % d >= 0,
                    c == t * big + rest,
                    rest < big,
                    big == d * step,
                    d > 0,
                    step > 0,
            ;
            assert(qa >= 0x10_0000_0000_0000 * step) by (nonlinear_arith)
                requires
                    qa >= t * step,
                    t >= 0x10_0000_0000_0000,
            ;
            lemma_fundamental_div_mod(qa as int, step as int);
            assert(0x10_0000_0000_0000 <= qa / step < 0x20_0000_0000_0000) by (nonlinear_arith)
                requires
                    0x10_0000_0000_0000 * step <= qa < 0x20_0000_0000_0000 * step,
                    qa == step * (qa / step) + qa % step,
                    0 <= qa % step < step,
            ;
            lemma_excess(qa, e);
        } else {
            lemma_pow2_zero();
        }
    }
    assert(a >= t * biga) by (nonlinear_arith)
        requires
            a > b * (t * step),
            biga == b * step,
    ;
    let resta = (a - t * biga) as nat;
    assert(resta * d <= rest * b) by (nonlinear_arith)
        requires
            a * d <= c * b,
            a == t * biga + resta,
            c == t * big + rest,
            biga == b * step,
            big == d * step,
    ;
    assert(resta < biga) by (nonlinear_arith)
        requires
            resta * d <= rest * b,
            rest < big,
            big == d * step,
            biga == b * step,
            b > 0,
            d > 0,
    ;
    assert(biga * t == t * biga) by (nonlinear_arith);
    lemma_fundamental_div_mod_converse(a as int, biga as int, t as int, resta as int);
    assert(2 * rest <= big) by {
        if 2 * rest > big {
            assert((t + 1) * step != t * step) by (nonlinear_arith)
                requires
                    step > 0,
            ;
        }
    }
    assert(2 * resta <= biga) by (nonlinear_arith)
        requires
            resta * d <= rest * b,
            2 * rest <= big,
            big == d * step,
            biga == b * step,
            d > 0,
    ;
    if 2 * resta == biga {
        assert(2 * rest >= big) by (nonlinear_arith)
            requires
                resta * d <= rest * b,
                2 * resta == biga,
                big == d * step,
                biga == b * step,
                b > 0,
        ;
        assert(t % 2 == 0) by {
            if t % 2 == 1 {
                assert((t + 1) * step != t * step) by (nonlinear_arith)
                    requires
                        step > 0,
                ;
            }
        }
    }
}

/// Rounds the place of `num / den` to a number, however high or low it lies.
pub(crate) fn round_at(
    neg: bool,
    place: u128,
    exponent: i128,
    sticky: bool,
    Ghost(num): Ghost<nat>,
    Ghost(den): Ghost<nat>,
) -> (r: Double)
    requires
        den > 0,
        0 < place < 0x8000_0000_0000_0000_0000_0000_0000_0000,
        sticky ==> place >= 0x40_0000_0000_0000,
        lies_at(num, den, place as nat, exponent as int, sticky),
    ensures
        r@ == finite(neg, nearest(num, den)),
{
    if exponent > 9000 {
        proof {
            lemma_pow2_zero();
            lemma_pow2_strictly_increases(2098, exponent as nat);
            let up = pow2(exponent as nat);
            assert(den * (1 * pow2(2098)) <= num) by (nonlinear_arith)
                requires
                    place as nat * (up * den) <= num * 1,
                    place >= 1,
                    up > pow2(2098),
                    den > 0,
            ;
            lemma_nearest_at_least(num, den, 1, 2098);
        }
        return Double::infinity(neg);
    }
    if exponent < -9000 {
        proof {
            lemma_below_half(num, den, place as nat, exponent as int, sticky);
            lemma_pow2_pos(2098);
            assert(0 * pow2(0) == 0);
        }
        return pack(neg, 0, 0);
    }
    round_place(neg, place, exponent as i32, sticky, Ghost(num), Ghost(den))
}

/// A quotient below one half rounds to nothing.
pub proof fn lemma_nearest_none(num: nat, den: nat)
    requires
        2 * num < den,
    ensures
        nearest(num, den) == 0,
{
    lemma_pow2_zero();
    assert(num / den == 0) by (nonlinear_arith)
        requires
            num < den,
    ;
    assert(den * 1 == den);
    assert(num % den == num) by (nonlinear_arith)
        requires
            num < den,
    ;
    assert(0 * pow2(0) == 0);
}

/// The quotient of two whole numbers below `2^32`: off from the exact one by
/// little enough that the divisor, times it, stays within half of the
/// dividend.
pub proof fn lemma_whole_quotient(n: nat, d: nat) -> (k: nat)
    requires
        n <= u32::MAX,
        0 < d <= u32::MAX,
    ensures
        quotient(whole(n), whole(d)) == Real::Finite(false, k),
        2 * (d * k) <= (2 * n + 1) * one(),
        n <= d ==> k <= one(),
        k == nearest(n * one(), d),
{
    let o = one();
    lemma_whole_exact(n);
    lemma_whole_exact(d);
    lemma_pow2_pos(1074);
    assert(d * o > 0) by (nonlinear_arith)
        requires
            d > 0,
            o > 0,
    ;
    lemma_nearest_scaled(n * o, d, o);
    assert((n * o) * o == o * (n * o)) by (nonlinear_arith);
    assert(o * d == d * o) by (nonlinear_arith);
    let k = nearest(n * o, d);
    assert(n * o <= d * (n * o)) by (nonlinear_arith)
        requires
            d >= 1,
            o >= 0,
            n >= 0,
    ;
    lemma_nearest_at_most(n * o, d, n, 1074);
    lemma_units_below_overflow(n, 1074);
    if n <= d {
        lemma_pow2_zero();
        assert(1 * pow2(1074) == o);
        assert(n * o <= d * o) by (nonlinear_arith)
            requires
                n <= d,
        ;
        lemma_nearest_at_most(n * o, d, 1, 1074);
    }
    lemma_nearest_error(n * o, d);
    lemma_step_small(n * o, d);
    let step = pow2(excess((n * o) / d));
    assert(d * step <= o) by {
        lemma2_to64();
        lemma_pow2_strictly_increases(32, 1074);
        if step == 1 {
            assert(d * 1 == d);
        } else {
            assert(d * step <= o) by (nonlinear_arith)
                requires
                    d * step * 0x10_0000_0000_0000 <= n * o,
                    n <= 0xFFFF_FFFF,
                    o > 0,
                    d * step >= 0,
            ;
        }
    }
    assert((2 * n + 1) * o == 2 * (n * o) + o) by (nonlinear_arith);
    k
}

proof fn lemma_units_below_overflow(m: nat, s: nat)
    requires
        m < 0x20_0000_0000_0000,
        s <= 2045,
    ensures
        m * pow2(s) < overflow(),
{
    lemma2_to64_rest();
    lemma_pow2_adds(53, s);
    lemma_pow2_pos(s);
    if s < 2045 {
        lemma_pow2_strictly_increases(53 + s, 2098);
    }
    assert(m * pow2(s) < pow2(53) * pow2(s)) by (nonlinear_arith)
        requires
            m < pow2(53),
            pow2(s) > 0,
    ;
}

/// A whole number, scaled by `k` units, has a whole part of at most `limit`,
/// where the exact product stays within half of it.
pub proof fn lemma_scaled_at_most(n: nat, k: nat, limit: nat, max: nat)
    requires
        n <= u32::MAX,
        limit <= u32::MAX,
        2 * (n * k) <= (2 * limit + 1) * one(),
    ensures
        whole_part(product(whole(n), Real::Finite(false, k)), max) <= limit,
{
    let o = one();
    lemma_whole_exact(n);
    lemma_pow2_pos(1074);
    lemma_nearest_scaled(n * k, 1, o);
    assert((n * o) * k == o * (n * k)) by (nonlinear_arith);
    assert(o * 1 == o);
    lemma_pow2_step(1073);
    let half = pow2(1073);
    assert(n * k <= (2 * limit + 1) * half) by (nonlinear_arith)
        requires
            2 * (n * k) <= (2 * limit + 1) * o,
            o == 2 * half,
    ;
    let p = nearest(n * k, 1);
    assert(1 * ((2 * limit + 1) * half) == (2 * limit + 1) * half);
    lemma_nearest_at_most(n * k, 1, 2 * limit + 1, 1073);
    lemma_units_below_overflow(2 * limit + 1, 1073);
    assert(p < (limit + 1) * o) by (nonlinear_arith)
        requires
            p <= (2 * limit + 1) * half,
            o == 2 * half,
            half > 0,
    ;
    lemma_fundamental_div_mod(p as int, o as int);
    assert(p / o <= limit) by (nonlinear_arith)
        requires
            p == o * (p / o) + p % o,
            p % o >= 0,
            p < (limit + 1) * o,
            o > 0,
    ;
}

/// A whole number, scaled down by `k` units, is rounded by no more than a
/// `2^53`-th; `p` is what it is rounded to.
pub proof fn lemma_scaled_near(n: nat, k: nat, max: nat) -> (p: nat)
    requires
        n <= u32::MAX <= max,
        k <= one(),
    ensures
        ({
            let f = whole_part(product(whole(n), Real::Finite(false, k)), max);
            &&& f * one() <= p < (f + 1) * one()
            &&& 0x20_0000_0000_0000 * p <= 0x20_0000_0000_0001 * (n * k)
            &&& 0x1F_FFFF_FFFF_FFFF * (n * k) <= 0x20_0000_0000_0000 * p
        }),
{
    let o = one();
    lemma_whole_exact(n);
    lemma_pow2_pos(1074);
    lemma_nearest_scaled(n * k, 1, o);
    assert((n * o) * k == o * (n * k)) by (nonlinear_arith);
    assert(o * 1 == o);
    let q = n * k;
    let p = nearest(q, 1);
    assert(q <= 1 * (n * o)) by (nonlinear_arith)
        requires
            q == n * k,
            k <= o,
    ;
    lemma_nearest_at_most(q, 1, n, 1074);
    lemma_units_below_overflow(n, 1074);
    lemma_fundamental_div_mod(p as int, o as int);
    assert(p / o <= n) by (nonlinear_arith)
        requires
            p == o * (p / o) + p % o,
            p % o >= 0,
            p <= n * o,
            o > 0,
    ;
    assert((p / o) * o == o * (p / o)) by (nonlinear_arith);
    assert((p / o + 1) * o == o * (p / o) + o) by (nonlinear_arith);
    lemma_nearest_error(q, 1);
    lemma_step_small(q, 1);
    p
}

/// A whole number below `2^64` is finite.
pub proof fn lemma_whole_finite(n: nat) -> (k: nat)
    requires
        n <= u64::MAX,
    ensures
        whole(n) == Real::Finite(false, k),
{
    lemma2_to64();
    lemma_pow2_adds(64, 1074);
    lemma_pow2_pos(1074);
    assert(n * one() <= 1 * (1 * pow2(1138))) by (nonlinear_arith)
        requires
            n <= pow2(64),
            pow2(1138) == pow2(64) * one(),
            one() > 0,
    ;
    lemma_nearest_at_most(n * one(), 1, 1, 1138);
    lemma_units_below_overflow(1, 1138);
    nearest(n * one(), 1)
}

/// A number, divided by one that is greater, is at most one; and so is the
/// square root of that.
pub proof fn lemma_shrink_at_most_one(a: nat, b: Real) -> (k: nat)
    requires
        a <= u64::MAX,
        less(whole(a), b),
    ensures
        root(quotient(whole(a), b)) == Real::Finite(false, k),
        k <= one(),
{
    let o = one();
    let i = lemma_whole_finite(a);
    lemma_pow2_pos(1074);
    lemma_pow2_zero();
    assert(1 * pow2(1074) == o);
    lemma_units_below_overflow(1, 1074);
    match b {
        Real::Infinite(_) => { 0 },
        Real::Finite(_, j) => {
            let q = nearest(i * o, j);
            assert(i * o <= j * (1 * pow2(1074))) by (nonlinear_arith)
                requires
                    i <= j,
                    o == pow2(1074),
            ;
            lemma_nearest_at_most(i * o, j, 1, 1074);
            assert(quotient(whole(a), b) == Real::Finite(false, q));
            if q == 0 {
                0
            } else {
                let r = lemma_root_exists(q * o);
                let num: nat = if r * r == q * o {
                    2 * r
                } else {
                    2 * r + 1
                };
                assert(num <= 2 * o) by {
                    if r * r == q * o {
                        assert(r <= o) by (nonlinear_arith)
                            requires
                                r * r == q * o,
                                q <= o,
                        ;
                    } else {
                        assert(r < o) by (nonlinear_arith)
                            requires
                                r * r <= q * o,
                                r * r != q * o,
                                q <= o,
                        ;
                    }
                }
                lemma_nearest_at_most(num, 2, 1, 1074);
                nearest(num, 2)
            }
        },
        Real::Nan => { 0 },
    }
}

/// Nothing, over anything, rounds to nothing.
proof fn lemma_zero_place_at_zero(den: nat)
    requires
        den > 0,
    ensures
        nearest(0, den) == 0,
{
    lemma_pow2_zero();
    lemma_exact_place(0, den, 0, 0);
    lemma_zero_place(0, den, 0);
}

} // verus!
