//! Writes numbers in full: the shortest decimal that reads back as the number.
use crate::decimal;
use crate::decimal::{big_text, div_small, limbs, mul_add, nearest_scaled, over, times};
use crate::double;
use crate::double::{Double, Real};
use crate::text;
use crate::text::{chars_of, joined, string_of};
use vstd::arithmetic::power2::{
    lemma2_to64, lemma_pow2_adds, lemma_pow2_pos, lemma_pow2_strictly_increases, pow2,
};
use vstd::prelude::*;

verus! {

/// Whether `m` times ten to the power of `e` is read as `k` units.
pub open spec fn reads(m: nat, e: int, k: nat) -> bool {
    decimal::scaled(m, e) == k
}

/// Ten to the power of `e`, in units, as a fraction: the numerator.
pub open spec fn grain(e: int) -> nat {
    decimal::ten(if e > 0 { e as nat } else { 0 }) * double::one()
}

/// Ten to the power of `e`, in units, as a fraction: the denominator.
pub open spec fn base(e: int) -> nat {
    decimal::ten(if e < 0 { (-e) as nat } else { 0 })
}

/// How far `m` times ten to the power of `e` is from `k` units, times the
/// denominator of that power.
pub open spec fn distance(m: nat, e: int, k: nat) -> nat {
    let (a, b) = (m * grain(e), k * base(e));
    if a >= b {
        (a - b) as nat
    } else {
        (b - a) as nat
    }
}

/// Whether `m` times ten to the power of `e` is the shortest decimal that is
/// read as `k` units: none with fewer decimals is, and none with as many is
/// nearer; of two that are equally near, it is the greater one.
pub open spec fn is_shortest(m: nat, e: int, k: nat) -> bool {
    &&& reads(m, e, k)
    &&& forall|n: nat, f: int| f > e ==> !#[trigger] reads(n, f, k)
    &&& forall|n: nat| #[trigger]
        reads(n, e, k) ==> distance(m, e, k) < distance(n, e, k) || (distance(m, e, k) == distance(
            n,
            e,
            k,
        ) && n <= m)
}

/// The digits of the shortest decimal that is read as `k` units, and its power
/// of ten.
pub open spec fn shortest(k: nat) -> (nat, int) {
    choose|p: (nat, int)| #[trigger] is_shortest(p.0, p.1, k)
}

/// So many zeros.
pub open spec fn zeros(n: nat) -> Seq<char> {
    Seq::new(n, |i: int| '0')
}

/// Digits times ten to the power of `e`, without an exponent.
pub open spec fn placed(digits: Seq<char>, e: int) -> Seq<char> {
    let at = digits.len() + e;
    if e >= 0 {
        digits + zeros(e as nat)
    } else if at > 0 {
        digits.take(at) + "."@ + digits.skip(at)
    } else {
        "0."@ + zeros((-at) as nat) + digits
    }
}

/// A number written with as many digits as it takes to read it back.
pub open spec fn shown(v: Real) -> Seq<char> {
    match v {
        Real::Nan => "NaN"@,
        Real::Infinite(neg) => if neg {
            "-inf"@
        } else {
            "inf"@
        },
        Real::Finite(neg, k) => (if neg {
            "-"@
        } else {
            ""@
        }) + if k == 0 {
            "0"@
        } else {
            placed(text::decimal(shortest(k).0), shortest(k).1)
        },
    }
}

/// There is one shortest decimal.
proof fn lemma_shortest(m: nat, e: int, k: nat)
    requires
        is_shortest(m, e, k),
    ensures
        shortest(k) == (m, e),
{
    let p = (m, e);
    assert(is_shortest(p.0, p.1, k));
    let (n, f) = shortest(k);
    assert(is_shortest(n, f, k));
    assert(reads(n, f, k) && reads(m, e, k));
    assert(f == e);
    assert(n <= m && m <= n);
}

/// What is read, as one fraction.
proof fn lemma_scaled(m: nat, e: int)
    ensures
        decimal::scaled(m, e) == double::nearest(m * grain(e), base(e)),
        grain(e) > 0,
        base(e) > 0,
{
    let o = double::one();
    lemma_pow2_pos(1074);
    assert(decimal::ten(0) == 1);
    assert(1 * o == o);
    decimal::lemma_ten_adds(if e > 0 { e as nat } else { 0 }, 0);
    decimal::lemma_ten_adds(if e < 0 { (-e) as nat } else { 0 }, 0);
    let t = decimal::ten(if e > 0 { e as nat } else { 0 });
    assert(t * o > 0) by (nonlinear_arith)
        requires
            t > 0,
            o > 0,
    ;
    assert(m * t * o == m * (t * o)) by (nonlinear_arith);
}

/// A greater decimal is not read as less.
proof fn lemma_reads_in_order(m: nat, n: nat, e: int)
    requires
        m <= n,
    ensures
        decimal::scaled(m, e) <= decimal::scaled(n, e),
{
    lemma_scaled(m, e);
    lemma_scaled(n, e);
    let (g, b) = (grain(e), base(e));
    assert((m * g) * b <= (n * g) * b) by (nonlinear_arith)
        requires
            m <= n,
    ;
    double::lemma_nearest_monotone(m * g, b, n * g, b);
}

/// The decimals next to a number are read as no more and as no less than it;
/// where any decimal with as many places is read as the number, one of them is.
proof fn lemma_neighbours(w: nat, s: nat, m: nat, e: int)
    requires
        w < 0x20_0000_0000_0000,
        m * grain(e) <= (w * pow2(s)) * base(e) < (m + 1) * grain(e),
    ensures
        forall|n: nat| n <= m && #[trigger] reads(n, e, w * pow2(s)) ==> reads(m, e, w * pow2(s)),
        forall|n: nat|
            n > m && #[trigger] reads(n, e, w * pow2(s)) ==> reads(m + 1, e, w * pow2(s)),
        m * grain(e) == (w * pow2(s)) * base(e) ==> reads(m, e, w * pow2(s)),
{
    let k = w * pow2(s);
    let (g, b) = (grain(e), base(e));
    lemma_scaled(m, e);
    lemma_scaled(m + 1, e);
    assert(b * k == k * b) by (nonlinear_arith);
    double::lemma_nearest_at_most(m * g, b, w, s);
    double::lemma_nearest_at_least((m + 1) * g, b, w, s);
    assert forall|n: nat| n <= m && #[trigger] reads(n, e, k) implies reads(m, e, k) by {
        lemma_reads_in_order(n, m, e);
    }
    assert forall|n: nat| n > m && #[trigger] reads(n, e, k) implies reads(m + 1, e, k) by {
        lemma_reads_in_order(m + 1, n, e);
    }
    if m * g == k * b {
        double::lemma_nearest_at_least(m * g, b, w, s);
    }
}

/// Where a decimal starts to be too coarse for numbers of a given size.
pub open spec fn coarsest(s: int) -> int {
    if s >= 1021 {
        (s - 1021) / 3
    } else {
        -((1021 - s) / 4) - 1
    }
}

/// A decimal that is too coarse for a number is not read as that number.
proof fn lemma_too_coarse(w: nat, s: nat, n: nat, e: int)
    requires
        0 < w < 0x20_0000_0000_0000,
        e > coarsest(s as int),
    ensures
        !reads(n, e, w * pow2(s)),
{
    let k = w * pow2(s);
    let (g, b) = (grain(e), base(e));
    lemma_scaled(n, e);
    lemma_pow2_pos(s);
    assert(k > 0) by (nonlinear_arith)
        requires
            k == w * pow2(s),
            w > 0,
            pow2(s) > 0,
    ;
    if n == 0 {
        assert(0 * g == 0);
        double::lemma_nearest_none(0, b);
    } else {
        let o = double::one();
        lemma_pow2_pos(1074);
        let (up, down) = (if e > 0 { e as nat } else { 0 }, if e < 0 { (-e) as nat } else { 0 });
        decimal::lemma_ten_bounds(up);
        decimal::lemma_ten_bounds(down);
        lemma_pow2_adds(3 * up, 1074);
        assert(4 * down + 53 + s <= 1074 + 3 * up);
        lemma_pow2_adds(4 * down, 53 + s);
        lemma_pow2_adds(53, s);
        vstd::arithmetic::power2::lemma2_to64_rest();
        if 4 * down + 53 + s < 1074 + 3 * up {
            lemma_pow2_strictly_increases(4 * down + 53 + s, 1074 + 3 * up);
        }
        let big = pow2(53 + s);
        assert(n * g >= b * (1 * big)) by (nonlinear_arith)
            requires
                n >= 1,
                g == decimal::ten(up) * o,
                b == decimal::ten(down),
                decimal::ten(up) >= pow2(3 * up),
                decimal::ten(down) <= pow2(4 * down),
                pow2(3 * up) * o >= pow2(4 * down) * big,
                big > 0,
                o > 0,
        ;
        double::lemma_nearest_at_least(n * g, b, 1, 53 + s);
        assert(k < big) by (nonlinear_arith)
            requires
                k == w * pow2(s),
                w < 0x20_0000_0000_0000,
                big == 0x20_0000_0000_0000 * pow2(s),
                pow2(s) > 0,
        ;
    }
}

/// `x * 2^k`.
fn doubled(x: Vec<u32>, k: u32) -> (r: Vec<u32>)
    requires
        x@.len() > 0 ==> x@.last() != 0,
    ensures
        decimal::big(r@) == decimal::big(x@) * pow2(k as nat),
        r@.len() > 0 ==> r@.last() != 0,
{
    let ghost n = decimal::big(x@);
    let mut r: Vec<u32> = x;
    let mut i: u32 = 0;
    proof {
        lemma2_to64();
        assert(n * 1 == n);
    }
    while i < k
        invariant
            i <= k,
            decimal::big(r@) == n * pow2(i as nat),
            r@.len() > 0 ==> r@.last() != 0,
        decreases k - i,
    {
        r = mul_add(&r, 2, 0);
        proof {
            let a = pow2(i as nat);
            lemma2_to64();
            lemma_pow2_adds(1, i as nat);
            assert(n * a * 2 == n * (2 * a)) by (nonlinear_arith);
        }
        i = i + 1;
    }
    r
}

/// `x / 2^k`.
fn halved(x: Vec<u32>, k: u32) -> (r: Vec<u32>)
    requires
        x@.len() > 0 ==> x@.last() != 0,
    ensures
        decimal::big(r@) * pow2(k as nat) <= decimal::big(x@) < (decimal::big(r@) + 1) * pow2(
            k as nat,
        ),
        r@.len() > 0 ==> r@.last() != 0,
{
    let ghost n = decimal::big(x@);
    let mut r: Vec<u32> = x;
    let mut i: u32 = 0;
    proof {
        lemma2_to64();
        assert(n * 1 == n && (n + 1) * 1 == n + 1);
    }
    while i < k
        invariant
            i <= k,
            decimal::big(r@) * pow2(i as nat) <= n < (decimal::big(r@) + 1) * pow2(i as nat),
            r@.len() > 0 ==> r@.last() != 0,
        decreases k - i,
    {
        let ghost a = decimal::big(r@);
        let (next, bit) = div_small(&r, 2);
        proof {
            let (b, t) = (decimal::big(next@), pow2(i as nat));
            lemma2_to64();
            lemma_pow2_adds(1, i as nat);
            lemma_pow2_pos(i as nat);
            assert(a == 2 * b + bit);
            assert(b * (2 * t) <= n < (b + 1) * (2 * t)) by (nonlinear_arith)
                requires
                    a * t <= n < (a + 1) * t,
                    a == 2 * b + bit,
                    0 <= bit <= 1,
                    t > 0,
            ;
        }
        r = next;
        i = i + 1;
    }
    r
}

/// How many halves of ten to the power of `e` a number of units holds.
fn halves(w: u64, s: u32, e: i32) -> (r: Vec<u32>)
    requires
        w < 0x20_0000_0000_0000,
        s <= 2045,
        -1074 <= e <= 400,
    ensures
        decimal::big(r@) * grain(e as int) <= 2 * (w as nat * pow2(s as nat)) * base(e as int) < (
        decimal::big(r@) + 1) * grain(e as int),
        r@.len() > 0 ==> r@.last() != 0,
{
    let ghost (o, p, b) = (double::one(), pow2(s as nat), base(e as int));
    let ghost t = decimal::ten(if e > 0 { e as nat } else { 0 });
    let x: Vec<u32> = limbs(2 * w);
    let x: Vec<u32> = if e < 0 {
        times(x, 10, (-e) as u128)
    } else {
        x
    };
    let ghost n = decimal::big(x@);
    proof {
        assert(decimal::ten(0) == 1);
        assert((2 * w as nat) * 1 == 2 * w);
        assert(n == (2 * w as nat) * b);
        lemma_pow2_pos(s as nat);
    }
    let x: Vec<u32> = if s >= 1074 {
        doubled(x, s - 1074)
    } else {
        halved(x, 1074 - s)
    };
    let ghost y = decimal::big(x@);
    proof {
        if s >= 1074 {
            lemma_pow2_adds((s - 1074) as nat, 1074);
            lemma_pow2_pos(1074);
            let c = pow2((s - 1074) as nat);
            assert(y * o <= n * p < (y + 1) * o) by (nonlinear_arith)
                requires
                    y == n * c,
                    p == c * o,
                    o > 0,
            ;
        } else {
            lemma_pow2_adds((1074 - s) as nat, s as nat);
            let c = pow2((1074 - s) as nat);
            assert(y * o <= n * p < (y + 1) * o) by (nonlinear_arith)
                requires
                    y * c <= n < (y + 1) * c,
                    o == c * p,
                    p > 0,
            ;
        }
    }
    let r: Vec<u32> = if e > 0 {
        over(x, e as u128).0
    } else {
        x
    };
    proof {
        let z = decimal::big(r@);
        lemma_pow2_pos(1074);
        assert(z * 1 == z && (z + 1) * 1 == z + 1);
        assert(z * t <= y < (z + 1) * t);
        assert(z * (t * o) <= n * p < (z + 1) * (t * o)) by (nonlinear_arith)
            requires
                z * t <= y < (z + 1) * t,
                y * o <= n * p < (y + 1) * o,
                o > 0,
        ;
        assert(2 * (w as nat * p) * b == n * p) by (nonlinear_arith)
            requires
                n == (2 * w as nat) * b,
        ;
    }
    r
}

/// Whether `m` times ten to the power of `e` is read as the number `d`.
fn is_read(m: &Vec<u32>, e: i32, d: Double) -> (r: bool)
    requires
        decimal::big(m@) < decimal::ten(1500),
        e >= -1074,
        d@ is Finite,
        !d@->Finite_0,
        d@->Finite_1 < double::overflow(),
    ensures
        r == reads(decimal::big(m@), e as int, d@->Finite_1),
{
    let x: Vec<u32> = mul_add(m, 1, 0);
    let v: Double = nearest_scaled(false, x, 1500, e as i128);
    !v.lt(d) && !d.lt(v)
}

/// Of the two decimals next to a number, the nearer one that is read as it is
/// the shortest decimal, where none that is coarser is read so.
proof fn lemma_chosen(w: nat, s: nat, low: nat, bit: nat, e: int, m: nat)
    requires
        w < 0x20_0000_0000_0000,
        bit <= 1,
        (2 * low + bit) * grain(e) <= 2 * (w * pow2(s)) * base(e) < (2 * low + bit + 1) * grain(e),
        forall|n: nat, f: int| f > e ==> !#[trigger] reads(n, f, w * pow2(s)),
        reads(m, e, w * pow2(s)),
        m == low && (bit == 0 || !reads(low + 1, e, w * pow2(s))) || m == low + 1 && (bit == 1
            || !reads(low, e, w * pow2(s))),
    ensures
        is_shortest(m, e, w * pow2(s)),
{
    let k = w * pow2(s);
    let (g, b) = (grain(e), base(e));
    lemma_scaled(m, e);
    assert(low * g <= k * b < (low + 1) * g) by (nonlinear_arith)
        requires
            (2 * low + bit) * g <= 2 * k * b < (2 * low + bit + 1) * g,
            0 <= bit <= 1,
            g > 0,
    ;
    lemma_neighbours(w, s, low, e);
    let (x, y) = (low * g, (low + 1) * g);
    assert(y == x + g) by (nonlinear_arith)
        requires
            x == low * g,
            y == (low + 1) * g,
    ;
    assert(bit == 0 ==> 2 * (k * b) < 2 * x + g) by (nonlinear_arith)
        requires
            2 * k * b < (2 * low + bit + 1) * g,
            x == low * g,
    ;
    assert(bit == 1 ==> 2 * x + g <= 2 * (k * b)) by (nonlinear_arith)
        requires
            (2 * low + bit) * g <= 2 * k * b,
            x == low * g,
    ;
    assert forall|n: nat| #[trigger] reads(n, e, k) implies distance(m, e, k) < distance(n, e, k)
        || (distance(m, e, k) == distance(n, e, k) && n <= m) by {
        let z = n * g;
        if n < low {
            assert(z < x) by (nonlinear_arith)
                requires
                    z == n * g,
                    x == low * g,
                    n < low,
                    g > 0,
            ;
        }
        if n > low + 1 {
            assert(z > y) by (nonlinear_arith)
                requires
                    z == n * g,
                    y == (low + 1) * g,
                    n > low + 1,
                    g > 0,
            ;
        }
    }
}

/// The decimals that are met on the way to the shortest one are not long.
proof fn lemma_not_long(k: nat, low: nat, e: int)
    requires
        k < double::overflow(),
        e >= -1074,
        low * grain(e) <= k * base(e),
    ensures
        low + 1 < decimal::ten(1500),
{
    let o = double::one();
    let (g, b) = (grain(e), base(e));
    let down = if e < 0 { (-e) as nat } else { 0 };
    lemma_scaled(low, e);
    lemma_pow2_pos(1074);
    lemma_pow2_adds(1024, 1074);
    decimal::lemma_ten_bounds(342);
    lemma_pow2_strictly_increases(1024, 1026);
    decimal::lemma_ten_adds(down, (1074 - down) as nat);
    decimal::lemma_ten_adds((1074 - down) as nat, 0);
    decimal::lemma_ten_adds(342, 1074);
    decimal::lemma_ten_adds(84, 1416);
    decimal::lemma_ten_adds(1416, 0);
    decimal::lemma_ten_bounds(84);
    lemma_pow2_strictly_increases(1, 252);
    lemma2_to64();
    let (t, u, c) = (decimal::ten(1074), decimal::ten(342), decimal::ten((1074 - down) as nat));
    assert(b <= t) by (nonlinear_arith)
        requires
            t == b * c,
            c > 0,
    ;
    let up = decimal::ten(if e > 0 { e as nat } else { 0 });
    assert(g >= o) by (nonlinear_arith)
        requires
            g == up * o,
            g > 0,
            o > 0,
    ;
    let h = pow2(1024);
    assert(low < h * t) by (nonlinear_arith)
        requires
            low * g <= k * b,
            g >= o,
            k < h * o,
            b <= t,
            b > 0,
            o > 0,
    ;
    assert(h * t <= u * t) by (nonlinear_arith)
        requires
            h <= u,
    ;
    let (x, y) = (decimal::ten(84), decimal::ten(1416));
    assert(x * y > 1 + y) by (nonlinear_arith)
        requires
            x > 2,
            y > 0,
    ;
}

/// Ten to the power of `n` holds two to the power of `n`.
proof fn lemma_ten_is_even(n: nat) -> (q: nat)
    ensures
        decimal::ten(n) == q * pow2(n),
    decreases n,
{
    lemma2_to64();
    if n == 0 {
        1
    } else {
        let q = lemma_ten_is_even((n - 1) as nat);
        lemma_pow2_adds(1, (n - 1) as nat);
        let p = pow2((n - 1) as nat);
        assert(10 * (q * p) == (5 * q) * (2 * p)) by (nonlinear_arith);
        5 * q
    }
}

/// With as many decimals as binary64 ever has, every number is met exactly.
proof fn lemma_all_decimals(w: nat, s: nat, low: nat)
    requires
        w < 0x20_0000_0000_0000,
        low * grain(-1074) <= (w * pow2(s)) * base(-1074) < (low + 1) * grain(-1074),
    ensures
        reads(low, -1074, w * pow2(s)),
{
    let k = w * pow2(s);
    let o = double::one();
    assert(decimal::ten(0) == 1);
    assert(1 * o == o);
    let q = lemma_ten_is_even(1074);
    lemma_pow2_pos(1074);
    let c = k * q;
    assert(k * (q * o) == c * o) by (nonlinear_arith)
        requires
            c == k * q,
    ;
    assert(low == c) by (nonlinear_arith)
        requires
            low * o <= c * o < (low + 1) * o,
            o > 0,
    ;
    lemma_neighbours(w, s, low, -1074);
}

/// The shortest decimal that is read as a number above zero.
fn digits_of(d: Double) -> (r: (Vec<u32>, i32))
    requires
        d@ is Finite,
        !d@->Finite_0,
        d@->Finite_1 > 0,
    ensures
        is_shortest(decimal::big(r.0@), r.1 as int, d@->Finite_1),
        -1074 <= r.1 <= 400,
{
    let (w, s) = d.parts();
    let ghost k = w as nat * pow2(s as nat);
    let mut e: i32 = if s >= 1021 {
        (s as i32 - 1021) / 3
    } else {
        -((1021 - s as i32) / 4) - 1
    };
    proof {
        if w == 0 {
            assert(0 * pow2(s as nat) == 0);
        }
        lemma_overflow(w as nat, s as nat);
        assert forall|n: nat, f: int| f > e implies !#[trigger] reads(n, f, k) by {
            lemma_too_coarse(w as nat, s as nat, n, f);
        }
    }
    loop
        invariant
            d@ == Real::Finite(false, k),
            k == w as nat * pow2(s as nat),
            0 < k < double::overflow(),
            w < 0x20_0000_0000_0000,
            s <= 2045,
            -1074 <= e <= 400,
            forall|n: nat, f: int| f > e ==> !#[trigger] reads(n, f, k),
        decreases e + 1074,
    {
        let p: Vec<u32> = halves(w, s, e);
        let (low, bit) = div_small(&p, 2);
        let high: Vec<u32> = mul_add(&low, 1, 1);
        let ghost (m, g, b) = (decimal::big(low@), grain(e as int), base(e as int));
        proof {
            lemma_scaled(m, e as int);
            assert(decimal::big(p@) == 2 * m + bit);
            assert(m * g <= k * b < (m + 1) * g) by (nonlinear_arith)
                requires
                    (2 * m + bit) * g <= 2 * k * b < (2 * m + bit + 1) * g,
                    0 <= bit <= 1,
                    g > 0,
            ;
            lemma_not_long(k, m, e as int);
        }
        let (low_is, high_is): (bool, bool) = (is_read(&low, e, d), is_read(&high, e, d));
        if low_is && (bit == 0 || !high_is) {
            proof {
                lemma_chosen(w as nat, s as nat, m, bit as nat, e as int, m);
            }
            return (low, e);
        }
        if high_is {
            proof {
                lemma_chosen(w as nat, s as nat, m, bit as nat, e as int, m + 1);
            }
            return (high, e);
        }
        proof {
            lemma_neighbours(w as nat, s as nat, m, e as int);
            if e == -1074 {
                lemma_all_decimals(w as nat, s as nat, m);
            }
            assert forall|n: nat, f: int| f > e - 1 implies !#[trigger] reads(n, f, k) by {
                if f == e && n <= m {
                    assert(!reads(m, e as int, k));
                }
            }
        }
        e = e - 1;
    }
}

/// A number that fits 53 bits at a place that binary64 has.
proof fn lemma_overflow(w: nat, s: nat)
    requires
        w < 0x20_0000_0000_0000,
        s <= 2045,
    ensures
        w * pow2(s) < double::overflow(),
{
    vstd::arithmetic::power2::lemma2_to64_rest();
    lemma_pow2_pos(s);
    lemma_pow2_adds(53, s);
    if s < 2045 {
        lemma_pow2_strictly_increases(53 + s, 2098);
    }
    let (p, f) = (pow2(s), pow2(53));
    assert(w * p < f * p) by (nonlinear_arith)
        requires
            w < f,
            p > 0,
    ;
}

/// So many zeros.
fn zeros_text(n: usize) -> (r: String)
    ensures
        r@ == zeros(n as nat),
{
    let mut r: String = String::new();
    let mut i: usize = 0;
    assert(r@ =~= zeros(0));
    while i < n
        invariant
            i <= n,
            r@ == zeros(i as nat),
        decreases n - i,
    {
        r.push('0');
        i = i + 1;
        assert(r@ =~= zeros(i as nat));
    }
    r
}

/// Digits times ten to the power of `e`, without an exponent.
fn placed_text(digits: &str, e: i32) -> (r: String)
    requires
        -1074 <= e <= 400,
    ensures
        r@ == placed(digits@, e as int),
{
    if e >= 0 {
        return joined(digits, &zeros_text(e as usize));
    }
    let v: Vec<char> = chars_of(digits);
    let back: usize = (-e) as usize;
    if v.len() > back {
        let at: usize = v.len() - back;
        proof {
            assert(v@.subrange(0, at as int) =~= digits@.take(at as int));
            assert(v@.subrange(at as int, v@.len() as int) =~= digits@.skip(at as int));
        }
        joined(&string_of(&v, 0, at), ".").concat(&string_of(&v, at, v.len()))
    } else {
        joined("0.", &zeros_text(back - v.len())).concat(digits)
    }
}

/// Zeros before digits leave their value.
proof fn lemma_leading_zeros(n: nat, digits: Seq<char>)
    ensures
        text::digits_value(zeros(n) + digits) == text::digits_value(digits),
    decreases n + digits.len(),
{
    let s = zeros(n) + digits;
    if digits.len() > 0 {
        assert(s.drop_last() =~= zeros(n) + digits.drop_last());
        assert(s.last() == digits.last());
        lemma_leading_zeros(n, digits.drop_last());
    } else if n > 0 {
        assert(s.drop_last() =~= zeros((n - 1) as nat) + digits);
        assert(s.last() == '0');
        lemma_leading_zeros((n - 1) as nat, digits);
    }
}

/// Each zero behind digits makes ten of one.
proof fn lemma_trailing_zeros(digits: Seq<char>, n: nat)
    ensures
        text::digits_value(digits + zeros(n)) == text::digits_value(digits) * decimal::ten(n),
    decreases n,
{
    let s = digits + zeros(n);
    let v = text::digits_value(digits);
    if n == 0 {
        assert(s =~= digits);
        assert(v * 1 == v);
    } else {
        assert(s.drop_last() =~= digits + zeros((n - 1) as nat));
        assert(s.last() == '0');
        lemma_trailing_zeros(digits, (n - 1) as nat);
        let t = decimal::ten((n - 1) as nat);
        assert(v * t * 10 == v * (10 * t)) by (nonlinear_arith);
    }
}

/// What a text of digits is, with a point among them at `at` or with none.
proof fn lemma_read(b: Seq<char>, at: int)
    requires
        0 < at <= b.len(),
        forall|i: int| 0 <= i < b.len() && i != at ==> '0' <= #[trigger] b[i] <= '9',
        at < b.len() ==> b[at] == '.',
    ensures
        ({
            let behind = if at < b.len() {
                b.skip(at + 1)
            } else {
                seq![]
            };
            &&& decimal::is_number(b)
            &&& decimal::before(b) == b.take(at)
            &&& decimal::behind(b) == behind
            &&& decimal::exponent(b) == -behind.len()
            &&& text::lower(b) == b
        }),
{
    assert(text::lower(b) =~= b) by {
        assert forall|i: int| 0 <= i < b.len() implies text::lower_char(#[trigger] b[i])
            == b[i] by {
            assert(i == at || '0' <= b[i] <= '9');
        }
    }
    assert forall|i: int| 0 <= i < b.len() implies #[trigger] b[i] != 'e' by {
        assert(i == at || '0' <= b[i] <= '9');
    }
    text::lemma_find_at(b, 'e', 0, b.len() as int);
    assert(b.take(b.len() as int) =~= b);
    assert forall|i: int| 0 <= i < at implies #[trigger] b[i] != '.' by {
        assert('0' <= b[i] <= '9');
    }
    text::lemma_find_at(b, '.', 0, at);
    let front = b.take(at);
    assert(decimal::only_digits(front)) by {
        assert forall|i: int| 0 <= i < front.len() implies '0' <= #[trigger] front[i] <= '9' by {
            assert('0' <= b[i] <= '9');
        }
    }
    if at < b.len() {
        let behind = b.skip(at + 1);
        assert(b.subrange(at + 1, b.len() as int) =~= behind);
        assert forall|i: int| 0 <= i < behind.len() implies '0' <= #[trigger] behind[i] <= '9' by {
            assert('0' <= b[i + at + 1] <= '9');
        }
    }
}

/// Whether a text of digits and a point is read as `k` units.
spec fn is_read_as(b: Seq<char>, k: nat) -> bool {
    &&& b.len() > 0 && '0' <= b[0] <= '9'
    &&& text::lower(b) == b
    &&& decimal::is_number(b)
    &&& decimal::scaled(
        text::digits_value(decimal::before(b) + decimal::behind(b)),
        decimal::exponent(b),
    ) == k
}

/// Digits with zeros behind them are read as the decimal they are.
proof fn lemma_placed_whole(digits: Seq<char>, e: nat)
    requires
        text::all_digits(digits),
    ensures
        is_read_as(digits + zeros(e), decimal::scaled(text::digits_value(digits), e as int)),
{
    let b = digits + zeros(e);
    assert forall|i: int| 0 <= i < b.len() implies '0' <= #[trigger] b[i] <= '9' by {
        if i < digits.len() {
            assert('0' <= digits[i] <= '9');
        }
    }
    lemma_read(b, b.len() as int);
    lemma_trailing_zeros(digits, e);
    assert(b.take(b.len() as int) + seq![] =~= b);
    let (m, t) = (text::digits_value(digits), decimal::ten(e));
    assert(decimal::ten(0) == 1);
    assert(m * t * 1 == m * t);
}

/// Digits with a point among them are read as the decimal they are.
proof fn lemma_placed_among(digits: Seq<char>, at: int)
    requires
        text::all_digits(digits),
        0 < at < digits.len(),
    ensures
        is_read_as(
            digits.take(at) + "."@ + digits.skip(at),
            decimal::scaled(text::digits_value(digits), at - digits.len()),
        ),
{
    reveal_strlit(".");
    let b = digits.take(at) + "."@ + digits.skip(at);
    assert(b[at] == '.');
    assert forall|i: int| 0 <= i < b.len() && i != at implies '0' <= #[trigger] b[i] <= '9' by {
        if i < at {
            assert(b[i] == digits[i]);
        } else {
            assert(b[i] == digits[i - 1]);
        }
    }
    lemma_read(b, at);
    assert(b.take(at) + b.skip(at + 1) =~= digits);
}

/// Digits with zeros and a point before them are read as the decimal they are.
proof fn lemma_placed_behind(digits: Seq<char>, n: nat)
    requires
        text::all_digits(digits),
    ensures
        is_read_as(
            "0."@ + zeros(n) + digits,
            decimal::scaled(text::digits_value(digits), -n - digits.len()),
        ),
{
    reveal_strlit("0.");
    let b = "0."@ + zeros(n) + digits;
    assert(b[0] == '0' && b[1] == '.');
    assert forall|i: int| 0 <= i < b.len() && i != 1 implies '0' <= #[trigger] b[i] <= '9' by {
        if i >= 2 + n {
            assert(b[i] == digits[i - 2 - n]);
        }
    }
    lemma_read(b, 1);
    assert(b.take(1) + b.skip(2) =~= zeros(n + 1) + digits);
    lemma_leading_zeros(n + 1, digits);
}

/// The digits of a decimal, put in their place, are read as that decimal.
proof fn lemma_placed(m: nat, e: int)
    ensures
        is_read_as(placed(text::decimal(m), e), decimal::scaled(m, e)),
{
    let digits = text::decimal(m);
    let at = digits.len() + e;
    text::law_decimal_reads_back(m);
    if e >= 0 {
        lemma_placed_whole(digits, e as nat);
    } else if at > 0 {
        lemma_placed_among(digits, at);
    } else {
        lemma_placed_behind(digits, (-at) as nat);
    }
}

/// What a text is read as, with its sign.
proof fn lemma_parsed(neg: bool, b: Seq<char>, k: nat)
    requires
        is_read_as(b, k),
        k < double::overflow(),
    ensures
        decimal::parsed(
            (if neg {
                "-"@
            } else {
                ""@
            }) + b,
        ) == Some(Real::Finite(neg, k)),
{
    reveal_strlit("inf");
    reveal_strlit("infinity");
    reveal_strlit("nan");
    lemma_signed(neg, b);
    assert("inf"@[0] == 'i' && "infinity"@[0] == 'i' && "nan"@[0] == 'n');
}

/// The words for what is no finite number are read as what they say.
proof fn lemma_words()
    ensures
        decimal::parsed("NaN"@) == Some(Real::Nan),
        decimal::parsed("inf"@) == Some(Real::Infinite(false)),
        decimal::parsed("-inf"@) == Some(Real::Infinite(true)),
{
    reveal_strlit("NaN");
    reveal_strlit("nan");
    reveal_strlit("inf");
    reveal_strlit("-inf");
    reveal_strlit("infinity");
    assert("-inf"@.skip(1) =~= "inf"@);
    assert(text::lower("inf"@) =~= "inf"@);
    assert(text::lower("NaN"@) =~= "nan"@);
    assert("nan"@[0] != "inf"@[0] && "nan"@[0] != "infinity"@[0]);
}

/// The sign of a number is told from its digits.
proof fn lemma_signed(neg: bool, b: Seq<char>)
    requires
        b.len() > 0,
        b[0] != '+',
        b[0] != '-',
    ensures
        ({
            let s = (if neg {
                "-"@
            } else {
                ""@
            }) + b;
            decimal::unsigned(s) == b && decimal::is_negative(s) == neg
        }),
{
    reveal_strlit("-");
    reveal_strlit("");
    if neg {
        assert(("-"@ + b).skip(1) =~= b);
    } else {
        assert(""@ + b =~= b);
    }
}

/// A number written with as many digits as it takes to read it back.
pub fn shortest_text(d: Double) -> (r: String)
    ensures
        r@ == shown(d@),
        decimal::parsed(r@) == Some(d@),
{
    proof {
        lemma_words();
    }
    if d.is_nan() {
        return "NaN".to_owned();
    }
    let negative: bool = d.sign();
    let sign: &str = if negative {
        "-"
    } else {
        ""
    };
    if d.is_infinite() {
        proof {
            reveal_strlit("-");
            reveal_strlit("");
            reveal_strlit("inf");
            reveal_strlit("-inf");
            assert("-"@ + "inf"@ =~= "-inf"@);
            assert(""@ + "inf"@ =~= "inf"@);
        }
        return joined(sign, "inf");
    }
    let (w, s) = d.parts();
    if w == 0 {
        proof {
            assert(0 * pow2(s as nat) == 0);
            lemma_pow2_pos(2098);
            lemma_scaled(0, 0);
            assert(0 * grain(0) == 0);
            double::lemma_nearest_none(0, base(0));
            lemma_placed(0, 0);
            reveal_strlit("0");
            assert(placed(text::decimal(0), 0) =~= "0"@);
            lemma_parsed(negative, "0"@, 0);
        }
        return joined(sign, "0");
    }
    let size: Double = if negative {
        d.neg()
    } else {
        d
    };
    proof {
        lemma_pow2_pos(s as nat);
        assert(w as nat * pow2(s as nat) > 0) by (nonlinear_arith)
            requires
                w > 0,
                pow2(s as nat) > 0,
        ;
    }
    let (digits, e) = digits_of(size);
    proof {
        let m = decimal::big(digits@);
        lemma_shortest(m, e as int, size@->Finite_1);
        lemma_placed(m, e as int);
        lemma_overflow(w as nat, s as nat);
        lemma_parsed(negative, placed(text::decimal(m), e as int), size@->Finite_1);
    }
    joined(sign, &placed_text(&big_text(digits), e))
}

/// A nought reads as zero.
pub proof fn lemma_zero_reads()
    ensures
        decimal::parsed(seq!['0']) == Some(Real::Finite(false, 0)),
{
    lemma_pow2_pos(2098);
    lemma_scaled(0, 0);
    assert(0 * grain(0) == 0);
    double::lemma_nearest_none(0, base(0));
    lemma_placed(0, 0);
    assert(placed(text::decimal(0), 0) =~= seq!['0']);
    lemma_parsed(false, seq!['0'], 0);
    reveal_strlit("");
    assert(""@ + seq!['0'] =~= seq!['0']);
}

} // verus!
