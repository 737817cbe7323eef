//! Reads decimal numbers: the text of a number, as people and programs write
//! it, to the binary64 number nearest to it. Writes them with one decimal.
use crate::double;
use crate::double::{power, round_at, Double, Real};
use crate::text;
use crate::text::{chars_of, decimal_text, find_char, joined, lower_text, same, string_of};
use vstd::arithmetic::div_mod::lemma_fundamental_div_mod;
use vstd::arithmetic::power2::{
    lemma2_to64, lemma2_to64_rest, lemma_pow2_adds, lemma_pow2_pos, lemma_pow2_strictly_increases, pow2,
};
use vstd::prelude::*;

verus! {

/// The number that the first `n` limbs of `v` make, the lowest first.
pub open spec fn low(v: Seq<u32>, n: nat) -> nat
    decreases n,
{
    if n == 0 {
        0
    } else {
        low(v, (n - 1) as nat) + v[n - 1] as nat * pow2(32 * (n - 1) as nat)
    }
}

/// The number that the limbs of `v` make.
pub open spec fn big(v: Seq<u32>) -> nat {
    low(v, v.len())
}

/// The limbs past the first `n` do not matter to what these make.
proof fn lemma_low_same(a: Seq<u32>, b: Seq<u32>, n: nat)
    requires
        forall|i: int| 0 <= i < n ==> a[i] == b[i],
    ensures
        low(a, n) == low(b, n),
    decreases n,
{
    if n > 0 {
        lemma_low_same(a, b, (n - 1) as nat);
    }
}

/// `n` limbs make a number below the next limb.
proof fn lemma_low_bound(v: Seq<u32>, n: nat)
    ensures
        low(v, n) < pow2(32 * n),
    decreases n,
{
    lemma2_to64();
    if n > 0 {
        lemma_low_bound(v, (n - 1) as nat);
        let b = pow2(32 * (n - 1) as nat);
        lemma_pow2_adds(32 * (n - 1) as nat, 32);
        assert(32 * (n - 1) as nat + 32 == 32 * n);
        assert(v[n - 1] as nat * b + b <= pow2(32 * n)) by (nonlinear_arith)
            requires
                v[n - 1] as nat + 1 <= pow2(32),
                pow2(32 * n) == b * pow2(32),
        ;
    }
}

/// `v * m + a`.
pub(crate) fn mul_add(v: &Vec<u32>, m: u32, a: u32) -> (r: Vec<u32>)
    ensures
        big(r@) == big(v@) * m + a,
        r@.len() > 0 ==> r@.last() != 0,
{
    let mut r: Vec<u32> = Vec::new();
    let mut carry: u64 = a as u64;
    let mut i: usize = 0;
    proof {
        lemma2_to64();
        assert(low(v@, 0) == 0 && low(r@, 0) == 0);
        assert(0 * m as nat == 0);
        assert(carry as nat * 1 == carry as nat);
    }
    while i < v.len()
        invariant
            0 <= i <= v@.len(),
            r@.len() == i,
            carry <= u32::MAX,
            low(r@, i as nat) + carry as nat * pow2(32 * i as nat) == low(v@, i as nat) * m as nat
                + a as nat,
        decreases v@.len() - i,
    {
        let ghost r0 = r@;
        let ghost carry0 = carry as nat;
        let ghost b = pow2(32 * i as nat);
        assert(v@[i as int] as nat * m as nat + carry <= u32::MAX as nat * u32::MAX as nat
            + u32::MAX) by (nonlinear_arith)
            requires
                v@[i as int] <= u32::MAX,
                m <= u32::MAX,
                carry <= u32::MAX,
        ;
        let t: u64 = v[i] as u64 * m as u64 + carry;
        let limb: u32 = (t % 0x1_0000_0000) as u32;
        r.push(limb);
        carry = t / 0x1_0000_0000;
        proof {
            lemma2_to64();
            lemma_low_same(r0, r@, i as nat);
            lemma_pow2_adds(32 * i as nat, 32);
            assert(32 * i as nat + 32 == 32 * (i + 1) as nat);
            let (lr, lv, x) = (low(r0, i as nat), low(v@, i as nat), v@[i as int] as nat);
            assert(lr + limb as nat * b + carry as nat * (b * pow2(32)) == (lv + x * b) * m as nat
                + a as nat) by (nonlinear_arith)
                requires
                    lr + carry0 * b == lv * m as nat + a as nat,
                    limb as nat + carry as nat * pow2(32) == x * m as nat + carry0,
            ;
            assert(low(r@, (i + 1) as nat) == lr + limb as nat * b);
            assert(low(v@, (i + 1) as nat) == lv + x * b);
        }
        i = i + 1;
    }
    let ghost r0 = r@;
    r.push(carry as u32);
    proof {
        lemma_low_same(r0, r@, i as nat);
        assert(low(r@, (i + 1) as nat) == low(r@, i as nat) + carry as nat * pow2(32 * i as nat));
    }
    trimmed(r)
}

/// The same number without limbs of zero at the top.
fn trimmed(v: Vec<u32>) -> (r: Vec<u32>)
    ensures
        big(r@) == big(v@),
        r@.len() <= v@.len(),
        r@.len() > 0 ==> r@.last() != 0,
{
    let mut r: Vec<u32> = v;
    while r.len() > 0 && r[r.len() - 1] == 0
        invariant
            big(r@) == big(v@),
            r@.len() <= v@.len(),
        ensures
            big(r@) == big(v@),
            r@.len() <= v@.len(),
            r@.len() > 0 ==> r@.last() != 0,
        decreases r@.len(),
    {
        let ghost r0 = r@;
        r.pop();
        proof {
            lemma_low_same(r0, r@, r@.len());
            assert(0 * pow2(32 * r@.len()) == 0);
        }
    }
    r
}

/// `v / d`, and what is left over.
pub(crate) fn div_small(v: &Vec<u32>, d: u32) -> (r: (Vec<u32>, u32))
    requires
        d > 0,
    ensures
        big(r.0@) == big(v@) / d as nat,
        r.1 == big(v@) % d as nat,
        r.0@.len() > 0 ==> r.0@.last() != 0,
{
    let n: usize = v.len();
    let mut q: Vec<u32> = Vec::new();
    let mut k: usize = 0;
    while k < n
        invariant
            k <= n,
            n == v@.len(),
            q@.len() == k,
        decreases n - k,
    {
        q.push(0);
        k = k + 1;
    }
    let mut rest: u64 = 0;
    let mut i: usize = n;
    proof {
        assert(pow2(32 * n as nat) * 0 == 0);
        lemma_high_none(q@, n as nat);
        lemma_high_none(v@, n as nat);
        assert(0 * d as nat == 0);
    }
    while i > 0
        invariant
            0 <= i <= n,
            n == v@.len(),
            q@.len() == n,
            d > 0,
            rest < d,
            high(v@, i as nat) == high(q@, i as nat) * d as nat + rest,
        decreases i,
    {
        i = i - 1;
        let ghost q0 = q@;
        let ghost rest0 = rest as nat;
        let limb: u64 = v[i] as u64;
        assert(rest * 0x1_0000_0000 + limb < d * 0x1_0000_0000) by (nonlinear_arith)
            requires
                rest + 1 <= d,
                limb < 0x1_0000_0000,
        ;
        let t: u64 = rest * 0x1_0000_0000 + limb;
        let digit: u64 = t / d as u64;
        assert(digit < 0x1_0000_0000) by (nonlinear_arith)
            requires
                digit == t / d as u64,
                t < d * 0x1_0000_0000,
                d > 0,
        ;
        q.set(i, digit as u32);
        rest = t % d as u64;
        proof {
            lemma_high_step(v@, i as nat);
            lemma_high_step(q@, i as nat);
            lemma_high_same(q0, q@, (i + 1) as nat);
            lemma_fundamental_div_mod(t as int, d as int);
            let (hv, hq) = (high(v@, (i + 1) as nat), high(q@, (i + 1) as nat));
            assert(hv * 0x1_0000_0000 + limb == (hq * 0x1_0000_0000 + digit) * d as nat + rest)
                by (nonlinear_arith)
                requires
                    hv == hq * d as nat + rest0,
                    rest0 * 0x1_0000_0000 + limb == d * digit + rest,
            ;
        }
    }
    proof {
        lemma_high_all(v@);
        lemma_high_all(q@);
        let (b, h) = (big(v@), big(q@));
        assert(b == h * d as nat + rest);
        vstd::arithmetic::div_mod::lemma_fundamental_div_mod_converse(
            b as int,
            d as int,
            h as int,
            rest as int,
        );
    }
    (trimmed(q), rest as u32)
}

/// The number that the limbs from `n` on make.
spec fn high(v: Seq<u32>, n: nat) -> nat
    decreases v.len() - n,
{
    if n >= v.len() {
        0
    } else {
        high(v, n + 1) * 0x1_0000_0000 + v[n as int] as nat
    }
}

proof fn lemma_high_none(v: Seq<u32>, n: nat)
    requires
        n >= v.len(),
    ensures
        high(v, n) == 0,
{
}

proof fn lemma_high_step(v: Seq<u32>, n: nat)
    requires
        n < v.len(),
    ensures
        high(v, n) == high(v, n + 1) * 0x1_0000_0000 + v[n as int] as nat,
{
}

proof fn lemma_high_same(a: Seq<u32>, b: Seq<u32>, n: nat)
    requires
        a.len() == b.len(),
        forall|i: int| n <= i < a.len() ==> a[i] == b[i],
    ensures
        high(a, n) == high(b, n),
    decreases a.len() - n,
{
    if n < a.len() {
        lemma_high_same(a, b, n + 1);
    }
}

/// All limbs, taken from either end.
proof fn lemma_high_all(v: Seq<u32>)
    ensures
        high(v, 0) == big(v),
{
    lemma_high_low(v, 0);
    lemma2_to64();
    assert(high(v, 0) * 1 == high(v, 0));
}

proof fn lemma_high_low(v: Seq<u32>, n: nat)
    requires
        n <= v.len(),
    ensures
        low(v, n) + high(v, n) * pow2(32 * n) == big(v),
    decreases v.len() - n,
{
    if n < v.len() {
        lemma_high_low(v, n + 1);
        lemma2_to64();
        lemma_pow2_adds(32 * n, 32);
        assert(32 * n + 32 == 32 * (n + 1));
        let (h, x, b) = (high(v, n + 1), v[n as int] as nat, pow2(32 * n));
        assert((h * 0x1_0000_0000 + x) * b == h * (b * 0x1_0000_0000) + x * b) by (nonlinear_arith);
    } else {
        assert(0 * pow2(32 * n) == 0);
    }
}

/// Ten to the power of `k`.
pub open spec fn ten(k: nat) -> nat
    decreases k,
{
    if k == 0 {
        1
    } else {
        10 * ten((k - 1) as nat)
    }
}

pub proof fn lemma_ten_adds(a: nat, b: nat)
    ensures
        ten(a + b) == ten(a) * ten(b),
        ten(a) > 0,
    decreases a,
{
    if a == 0 {
        assert(1 * ten(b) == ten(b));
    } else {
        lemma_ten_adds((a - 1) as nat, b);
        assert((a + b - 1) as nat == (a - 1) as nat + b);
        assert(10 * (ten((a - 1) as nat) * ten(b)) == (10 * ten((a - 1) as nat)) * ten(b))
            by (nonlinear_arith);
    }
}

/// Ten is more than eight and less than sixteen.
pub proof fn lemma_ten_bounds(k: nat)
    ensures
        pow2(3 * k) <= ten(k) <= pow2(4 * k),
    decreases k,
{
    lemma2_to64();
    if k > 0 {
        lemma_ten_bounds((k - 1) as nat);
        lemma_pow2_adds(3, 3 * (k - 1) as nat);
        lemma_pow2_adds(4, 4 * (k - 1) as nat);
        assert(3 + 3 * (k - 1) as nat == 3 * k);
        assert(4 + 4 * (k - 1) as nat == 4 * k);
    }
}

/// The number nearest to `n` times ten to the power of `e`, in units.
pub open spec fn scaled(n: nat, e: int) -> nat {
    if e >= 0 {
        double::nearest(n * ten(e as nat) * double::one(), 1)
    } else {
        double::nearest(n * double::one(), ten((-e) as nat))
    }
}

/// Whether a text holds nothing but decimal digits.
pub open spec fn only_digits(s: Seq<char>) -> bool {
    forall|i: int| 0 <= i < s.len() ==> '0' <= #[trigger] s[i] <= '9'
}

/// A text without the sign that may stand before it.
pub open spec fn unsigned(s: Seq<char>) -> Seq<char> {
    if s.len() > 0 && (s[0] == '+' || s[0] == '-') {
        s.skip(1)
    } else {
        s
    }
}

/// Whether a minus sign stands before a text.
pub open spec fn is_negative(s: Seq<char>) -> bool {
    s.len() > 0 && s[0] == '-'
}

/// Where the exponent of a number begins, or its length where it has none.
pub open spec fn mark(b: Seq<char>) -> int {
    text::find_from(text::lower(b), 'e', 0)
}

/// Where the point of a number stands, or the end of its digits where it has
/// none.
pub open spec fn point(b: Seq<char>) -> int {
    text::find_from(b.take(mark(b)), '.', 0)
}

/// The digits before the point.
pub open spec fn before(b: Seq<char>) -> Seq<char> {
    b.take(point(b))
}

/// The digits behind the point.
pub open spec fn behind(b: Seq<char>) -> Seq<char> {
    if point(b) < mark(b) {
        b.subrange(point(b) + 1, mark(b))
    } else {
        seq![]
    }
}

/// Whether a text without its sign is a number: digits, with a point before,
/// among or behind them, and a whole exponent behind an `e`.
pub open spec fn is_number(b: Seq<char>) -> bool {
    &&& only_digits(before(b)) && only_digits(behind(b))
    &&& before(b).len() + behind(b).len() > 0
    &&& mark(b) < b.len() ==> text::all_digits(unsigned(b.skip(mark(b) + 1)))
}

/// A whole number with its sign.
pub open spec fn signed_value(x: Seq<char>) -> int {
    let n = text::digits_value(unsigned(x)) as int;
    if is_negative(x) {
        -n
    } else {
        n
    }
}

/// The exponent of a number, counted from behind its last digit.
pub open spec fn exponent(b: Seq<char>) -> int {
    (if mark(b) < b.len() {
        signed_value(b.skip(mark(b) + 1))
    } else {
        0
    }) - behind(b).len()
}

/// The number that a text is, where it is one: the nearest to the decimal
/// number that it writes out, or infinity, or what is not a number.
pub open spec fn parsed(s: Seq<char>) -> Option<Real> {
    let b = unsigned(s);
    if text::lower(b) == "inf"@ || text::lower(b) == "infinity"@ {
        Some(Real::Infinite(is_negative(s)))
    } else if text::lower(b) == "nan"@ {
        Some(Real::Nan)
    } else if is_number(b) {
        Some(
            double::finite(
                is_negative(s),
                scaled(text::digits_value(before(b) + behind(b)), exponent(b)),
            ),
        )
    } else {
        None
    }
}

/// Rounds a fraction of big numbers: `x` limbs stand for `n * 2^s`, divided by
/// `den` and rounded down, and `sticky` tells whether anything was left over.
fn round_big(
    neg: bool,
    x: Vec<u32>,
    s: u128,
    sticky: bool,
    Ghost(n): Ghost<nat>,
    Ghost(den): Ghost<nat>,
) -> (r: Double)
    requires
        den > 0,
        s < 0x1_0000_0000_0000_0000_0000,
        x@.len() > 0,
        x@.last() != 0,
        big(x@) * den <= n * pow2(s as nat) < (big(x@) + 1) * den,
        sticky == (big(x@) * den != n * pow2(s as nat)),
        sticky ==> big(x@) >= 0x40_0000_0000_0000,
    ensures
        r@ == double::finite(neg, double::nearest(n * double::one(), den)),
{
    let from: usize = if x.len() > 3 {
        x.len() - 3
    } else {
        0
    };
    let (p, left) = (top(&x, from), any_below(&x, from));
    let inexact: bool = sticky || left;
    let t: i128 = 1074 + 32 * (from as i128) - s as i128;
    proof {
        let (b, l, wide) = (big(x@), low(x@, from as nat), pow2(32 * from as nat));
        let (num, y) = (n * double::one(), n * pow2(s as nat));
        lemma_high_low(x@, from as nat);
        lemma_low_bound(x@, from as nat);
        lemma_top_limb(x@, from as nat);
        lemma_pow2_pos(32 * from as nat);
        if from == 0 {
            lemma2_to64();
            assert(p as nat * 1 == p as nat);
        }
        assert(p as nat * (wide * den) <= y < (p as nat + 1) * (wide * den)) by (nonlinear_arith)
            requires
                b == l + p as nat * wide,
                l < wide,
                b * den <= y < (b + 1) * den,
                den > 0,
        ;
        assert(inexact == (p as nat * (wide * den) != y)) by (nonlinear_arith)
            requires
                b == l + p as nat * wide,
                b * den <= y,
                sticky == (b * den != y),
                inexact == (sticky || l != 0),
                den > 0,
        ;
        lemma_place(n, den, p as nat, 32 * from as nat, s as nat, inexact);
    }
    round_at(neg, p, t, inexact, Ghost(n * double::one()), Ghost(den))
}

/// A place of `n * 2^s / den` above `w` bits is one of `n` wholes over `den`.
proof fn lemma_place(n: nat, den: nat, p: nat, w: nat, s: nat, sticky: bool)
    requires
        den > 0,
        p * (pow2(w) * den) <= n * pow2(s) < (p + 1) * (pow2(w) * den),
        sticky == (p * (pow2(w) * den) != n * pow2(s)),
    ensures
        double::lies_at(n * double::one(), den, p, 1074 + w - s, sticky),
{
    let t = 1074 + w - s;
    let up = pow2(if t > 0 { t as nat } else { 0 });
    let down = pow2(if t < 0 { (-t) as nat } else { 0 });
    let (wide, ps, num) = (pow2(w), pow2(s), n * double::one());
    lemma_pow2_adds(w, 1074);
    double::lemma_pow2_balance(w + 1074, s, t);
    lemma_pow2_pos(if t > 0 { t as nat } else { 0 });
    lemma_pow2_pos(w);
    // Both sides of each bound, times `up`, hold a factor of `wide`.
    assert(num * down * wide == n * ps * up) by (nonlinear_arith)
        requires
            num == n * double::one(),
            wide * double::one() * down == ps * up,
    ;
    let (a, y, b) = (p * (up * den), num * down, (p + 1) * (up * den));
    assert(a * wide == p * (wide * den) * up) by (nonlinear_arith)
        requires
            a == p * (up * den),
    ;
    assert(b * wide == (p + 1) * (wide * den) * up) by (nonlinear_arith)
        requires
            b == (p + 1) * (up * den),
    ;
    assert(a * wide <= y * wide < b * wide) by (nonlinear_arith)
        requires
            a * wide == p * (wide * den) * up,
            b * wide == (p + 1) * (wide * den) * up,
            y * wide == n * ps * up,
            p * (wide * den) <= n * ps < (p + 1) * (wide * den),
            up > 0,
    ;
    assert(sticky == (a * wide != y * wide)) by (nonlinear_arith)
        requires
            a * wide == p * (wide * den) * up,
            y * wide == n * ps * up,
            sticky == (p * (wide * den) != n * ps),
            up > 0,
    ;
    assert(a <= y < b) by (nonlinear_arith)
        requires
            a * wide <= y * wide < b * wide,
            wide > 0,
    ;
    assert(sticky == (a != y)) by (nonlinear_arith)
        requires
            sticky == (a * wide != y * wide),
            wide > 0,
    ;
}

/// What the limbs from `from` on make, where they are three at most.
fn top(v: &Vec<u32>, from: usize) -> (r: u128)
    requires
        from <= v@.len() <= from + 3,
    ensures
        r == high(v@, from as nat),
        r < 0x1_0000_0000_0000_0000_0000_0000,
{
    let n: usize = v.len();
    let mut r: u128 = 0;
    let mut i: usize = n;
    while i > from
        invariant
            from <= i <= n,
            n == v@.len(),
            n <= from + 3,
            r == high(v@, i as nat),
            n - i == 0 ==> r == 0,
            n - i == 1 ==> r < 0x1_0000_0000,
            n - i == 2 ==> r < 0x1_0000_0000_0000_0000,
            r < 0x1_0000_0000_0000_0000_0000_0000,
        decreases i,
    {
        i = i - 1;
        r = r * 0x1_0000_0000 + v[i] as u128;
    }
    r
}

/// Whether one of the first `n` limbs is not zero.
fn any_below(v: &Vec<u32>, n: usize) -> (r: bool)
    requires
        n <= v@.len(),
    ensures
        r == (low(v@, n as nat) != 0),
{
    let mut r: bool = false;
    let mut i: usize = 0;
    while i < n
        invariant
            i <= n <= v@.len(),
            r == (low(v@, i as nat) != 0),
        decreases n - i,
    {
        proof {
            let (x, b) = (v@[i as int] as nat, pow2(32 * i as nat));
            lemma_pow2_pos(32 * i as nat);
            assert((x * b == 0) == (x == 0)) by (nonlinear_arith)
                requires
                    b > 0,
            ;
            assert(low(v@, (i + 1) as nat) == low(v@, i as nat) + x * b);
        }
        if v[i] != 0 {
            r = true;
        }
        i = i + 1;
    }
    r
}

/// A top limb that is not zero makes the limbs from `n` on as high as it is.
proof fn lemma_top_limb(v: Seq<u32>, n: nat)
    requires
        n < v.len(),
        v.last() != 0,
    ensures
        high(v, n) > 0,
        n + 3 <= v.len() ==> high(v, n) >= 0x1_0000_0000_0000_0000,
    decreases v.len() - n,
{
    if n + 1 < v.len() {
        lemma_top_limb(v, n + 1);
        if n + 3 <= v.len() {
            assert(n + 2 < v.len());
            lemma_top_limb(v, n + 2);
            assert(high(v, n + 1) >= high(v, n + 2) * 0x1_0000_0000);
        }
    } else {
        lemma_high_none(v, n + 1);
    }
}

/// The number that decimal digits make.
fn big_of(digits: &Vec<char>) -> (r: Vec<u32>)
    requires
        only_digits(digits@),
    ensures
        big(r@) == text::digits_value(digits@),
        big(r@) < ten(digits@.len()),
        r@.len() > 0 ==> r@.last() != 0,
{
    let mut r: Vec<u32> = Vec::new();
    let mut i: usize = 0;
    assert(digits@.take(0).len() == 0);
    while i < digits.len()
        invariant
            0 <= i <= digits@.len(),
            only_digits(digits@),
            big(r@) == text::digits_value(digits@.take(i as int)),
            big(r@) < ten(i as nat),
            r@.len() > 0 ==> r@.last() != 0,
        decreases digits@.len() - i,
    {
        let d: u32 = digits[i] as u32 - 48;
        r = mul_add(&r, 10, d);
        proof {
            let next = digits@.take(i + 1);
            assert(next.drop_last() =~= digits@.take(i as int));
            assert(next.last() == digits@[i as int]);
        }
        i = i + 1;
    }
    assert(digits@.take(i as int) =~= digits@);
    r
}

/// `x * m^k`, where `m` is ten or sixteen.
pub(crate) fn times(x: Vec<u32>, m: u32, k: u128) -> (r: Vec<u32>)
    requires
        m == 10 || m == 16,
        x@.len() > 0 ==> x@.last() != 0,
    ensures
        m == 10 ==> big(r@) == big(x@) * ten(k as nat),
        m == 16 ==> big(r@) == big(x@) * pow2(4 * k as nat),
        r@.len() > 0 ==> r@.last() != 0,
{
    let ghost n = big(x@);
    let mut r: Vec<u32> = x;
    let mut i: u128 = 0;
    proof {
        lemma2_to64();
        assert(n * 1 == n);
    }
    while i < k
        invariant
            0 <= i <= k,
            m == 10 || m == 16,
            m == 10 ==> big(r@) == n * ten(i as nat),
            m == 16 ==> big(r@) == n * pow2(4 * i as nat),
            r@.len() > 0 ==> r@.last() != 0,
        decreases k - i,
    {
        r = mul_add(&r, m, 0);
        proof {
            let (a, b) = (ten(i as nat), pow2(4 * i as nat));
            lemma2_to64();
            lemma_pow2_adds(4, 4 * i as nat);
            assert(4 + 4 * i as nat == 4 * (i + 1) as nat);
            assert(n * a * 10 == n * (10 * a)) by (nonlinear_arith);
            assert(n * b * 16 == n * (16 * b)) by (nonlinear_arith);
        }
        i = i + 1;
    }
    r
}

/// `x / 10^k`, and whether something is left over.
pub(crate) fn over(x: Vec<u32>, k: u128) -> (r: (Vec<u32>, bool))
    requires
        x@.len() > 0 ==> x@.last() != 0,
    ensures
        big(r.0@) * ten(k as nat) <= big(x@) < (big(r.0@) + 1) * ten(k as nat),
        r.1 == (big(r.0@) * ten(k as nat) != big(x@)),
        r.0@.len() > 0 ==> r.0@.last() != 0,
{
    let ghost n = big(x@);
    let mut q: Vec<u32> = x;
    let mut left: bool = false;
    let mut i: u128 = 0;
    assert(n * 1 == n && (n + 1) * 1 == n + 1);
    while i < k
        invariant
            0 <= i <= k,
            big(q@) * ten(i as nat) <= n < (big(q@) + 1) * ten(i as nat),
            left == (big(q@) * ten(i as nat) != n),
            q@.len() > 0 ==> q@.last() != 0,
        decreases k - i,
    {
        let ghost a = big(q@);
        let (next, digit) = div_small(&q, 10);
        let rest: bool = digit != 0;
        proof {
            let (b, c, t) = (big(next@), a % 10, ten(i as nat));
            lemma_ten_adds(i as nat, 1);
            assert(a == 10 * b + c);
            assert(b * (10 * t) <= n < (b + 1) * (10 * t)) by (nonlinear_arith)
                requires
                    a * t <= n < (a + 1) * t,
                    a == 10 * b + c,
                    0 <= c <= 9,
                    t > 0,
            ;
            assert((left || rest) == (b * (10 * t) != n)) by (nonlinear_arith)
                requires
                    a * t <= n,
                    left == (a * t != n),
                    a == 10 * b + c,
                    rest == (c != 0),
                    c >= 0,
                    t > 0,
            ;
        }
        q = next;
        left = left || rest;
        i = i + 1;
    }
    (q, left)
}

/// A power of ten above the 400th reaches past binary64.
proof fn lemma_past(n: nat, e: nat)
    requires
        n > 0,
        e > 400,
    ensures
        double::nearest(n * ten(e) * double::one(), 1) >= double::overflow(),
{
    let o = double::one();
    lemma_ten_bounds(e);
    lemma_pow2_strictly_increases(1024, 3 * e);
    lemma_pow2_adds(1024, 1074);
    lemma_pow2_pos(1074);
    assert(1 * (1 * pow2(2098)) <= n * ten(e) * o) by (nonlinear_arith)
        requires
            n >= 1,
            ten(e) >= pow2(1024),
            pow2(2098) == pow2(1024) * o,
            o > 0,
    ;
    double::lemma_nearest_at_least(n * ten(e) * o, 1, 1, 2098);
}

/// A number below the 400th negative power of ten is below all of binary64.
proof fn lemma_below(n: nat, len: nat, k: nat)
    requires
        n < ten(len),
        k > len + 400,
    ensures
        double::nearest(n * double::one(), ten(k)) == 0,
{
    let o = double::one();
    let d = (k - len) as nat;
    lemma_ten_adds(len, d);
    lemma_ten_bounds(d);
    lemma_pow2_strictly_increases(1075, 3 * d);
    lemma2_to64();
    lemma_pow2_adds(1, 1074);
    lemma_pow2_pos(1074);
    assert(2 * (n * o) < ten(k)) by (nonlinear_arith)
        requires
            n + 1 <= ten(len),
            ten(k) == ten(len) * ten(d),
            ten(d) >= 2 * o,
            o > 0,
            n >= 0,
    ;
    double::lemma_nearest_none(n * o, ten(k));
}

/// The number nearest to `x * 10^e`.
pub(crate) fn nearest_scaled(neg: bool, x: Vec<u32>, len: usize, e: i128) -> (r: Double)
    requires
        x@.len() > 0 ==> x@.last() != 0,
        big(x@) < ten(len as nat),
        -0x1_0000_0000_0000_0000_0000 < e,
    ensures
        r@ == double::finite(neg, scaled(big(x@), e as int)),
{
    let ghost n = big(x@);
    let ghost o = double::one();
    let zero: Double = if neg {
        Double::from_u64(0).neg()
    } else {
        Double::from_u64(0)
    };
    proof {
        double::lemma_whole_exact(0);
        lemma_pow2_pos(2098);
        assert(0 * o == 0);
        lemma_ten_adds(if e < 0 { (-e) as nat } else { e as nat }, 0);
        assert(low(x@, 0) == 0);
        if x@.len() > 0 {
            lemma_top_limb(x@, 0);
            lemma_high_all(x@);
        }
    }
    if x.len() == 0 {
        proof {
            if e >= 0 {
                assert(0 * ten(e as nat) * o == 0) by (nonlinear_arith);
                double::lemma_nearest_none(0, 1);
            } else {
                double::lemma_nearest_none(0, ten((-e) as nat));
            }
        }
        return zero;
    }
    if e >= 0 {
        if e > 400 {
            proof {
                lemma_past(n, e as nat);
            }
            return Double::infinity(neg);
        }
        let v: Vec<u32> = times(x, 10, e as u128);
        proof {
            let m = n * ten(e as nat);
            lemma2_to64();
            assert(m * 1 == m && (m + 1) * 1 == m + 1);
            assert(m > 0) by (nonlinear_arith)
                requires
                    m == n * ten(e as nat),
                    n > 0,
                    ten(e as nat) > 0,
            ;
            assert(low(v@, 0) == 0);
        }
        return round_big(neg, v, 0, false, Ghost(n * ten(e as nat)), Ghost(1));
    }
    let k: u128 = (-e) as u128;
    if k > len as u128 + 400 {
        proof {
            lemma_below(n, len as nat, k as nat);
        }
        return zero;
    }
    let v: Vec<u32> = times(x, 16, k);
    let v: Vec<u32> = mul_add(&v, 0x1000_0000, 0);
    let v: Vec<u32> = mul_add(&v, 0x1000_0000, 0);
    let ghost y = big(v@);
    let (q, left) = over(v, k);
    proof {
        let (d, b) = (ten(k as nat), big(q@));
        lemma2_to64_rest();
        lemma_pow2_adds(4 * k as nat, 56);
        assert(y == n * pow2(4 * k as nat + 56)) by (nonlinear_arith)
            requires
                y == n * pow2(4 * k as nat) * 0x1000_0000 * 0x1000_0000,
                pow2(4 * k as nat + 56) == pow2(4 * k as nat) * 0x100_0000_0000_0000,
        ;
        lemma_ten_bounds(k as nat);
        assert(b >= 0x40_0000_0000_0000) by (nonlinear_arith)
            requires
                y < (b + 1) * d,
                y == n * pow2(4 * k as nat) * 0x1000_0000 * 0x1000_0000,
                n >= 1,
                d <= pow2(4 * k as nat),
                d > 0,
        ;
        assert(low(q@, 0) == 0);
    }
    round_big(neg, q, 4 * k + 56, left, Ghost(n), Ghost(ten(k as nat)))
}

/// Whether `v` holds nothing but decimal digits from `from` up to `to`.
fn digits_between(v: &Vec<char>, from: usize, to: usize) -> (r: bool)
    requires
        from <= to <= v@.len(),
    ensures
        r == only_digits(v@.subrange(from as int, to as int)),
{
    let ghost d = v@.subrange(from as int, to as int);
    let mut i: usize = from;
    while i < to
        invariant
            from <= i <= to <= v@.len(),
            d == v@.subrange(from as int, to as int),
            forall|j: int| 0 <= j < i - from ==> '0' <= #[trigger] d[j] <= '9',
        decreases to - i,
    {
        assert(d[i - from] == v@[i as int]);
        if v[i] < '0' || v[i] > '9' {
            return false;
        }
        i = i + 1;
    }
    true
}

/// Appends what `v` holds from `from` up to `to`.
fn put_between(r: &mut Vec<char>, v: &Vec<char>, from: usize, to: usize)
    requires
        from <= to <= v@.len(),
    ensures
        final(r)@ == old(r)@ + v@.subrange(from as int, to as int),
{
    let mut i: usize = from;
    assert(r@ =~= old(r)@ + v@.subrange(from as int, from as int));
    while i < to
        invariant
            from <= i <= to <= v@.len(),
            r@ == old(r)@ + v@.subrange(from as int, i as int),
        decreases to - i,
    {
        r.push(v[i]);
        i = i + 1;
        assert(r@ =~= old(r)@ + v@.subrange(from as int, i as int));
    }
}

/// More than any text is long.
pub open spec fn far() -> int {
    0x1000_0000_0000_0000_0000
}

/// The value of the digits of `v` from `from` on; no more than `far` where
/// they make more.
fn capped_value(v: &Vec<char>, from: usize) -> (r: i128)
    requires
        from <= v@.len(),
        only_digits(v@.skip(from as int)),
    ensures
        r == text::digits_value(v@.skip(from as int)) || (r == far() && text::digits_value(
            v@.skip(from as int),
        ) >= far()),
        0 <= r <= far(),
{
    let ghost d = v@.skip(from as int);
    let mut r: i128 = 0;
    let mut i: usize = from;
    assert(d.take(0).len() == 0);
    while i < v.len()
        invariant
            from <= i <= v@.len(),
            d == v@.skip(from as int),
            only_digits(d),
            0 <= r <= far(),
            r == text::digits_value(d.take(i - from)) || (r == far() && text::digits_value(
                d.take(i - from),
            ) >= far()),
        decreases v@.len() - i,
    {
        assert(d[i - from] == v@[i as int]);
        proof {
            let next = d.take(i + 1 - from);
            assert(next.drop_last() =~= d.take(i - from));
            assert(next.last() == d[i - from]);
        }
        r = r * 10 + (v[i] as u32 - 48) as i128;
        if r > 0x1000_0000_0000_0000_0000 {
            r = 0x1000_0000_0000_0000_0000;
        }
        i = i + 1;
    }
    assert(d.take(i - from) =~= d);
    r
}

/// Exponents that are far out all scale alike.
proof fn lemma_far(n: nat, len: nat, e: int, f: int)
    requires
        n < ten(len),
        e == f || (e > 400 && f > 400) || (e < -len - 400 && f < -len - 400),
    ensures
        double::finite(true, scaled(n, e)) == double::finite(true, scaled(n, f)),
        double::finite(false, scaled(n, e)) == double::finite(false, scaled(n, f)),
{
    if e > 400 {
        if n > 0 {
            lemma_past(n, e as nat);
            lemma_past(n, f as nat);
        } else {
            assert(0 * ten(e as nat) * double::one() == 0) by (nonlinear_arith);
            assert(0 * ten(f as nat) * double::one() == 0) by (nonlinear_arith);
        }
    } else if e < -len - 400 {
        lemma_below(n, len, (-e) as nat);
        lemma_below(n, len, (-f) as nat);
    }
}

/// The exponent that stands in `v` from `at` on; no farther out than `far`.
fn exponent_at(v: &Vec<char>, at: usize) -> (r: Option<i128>)
    requires
        at <= v@.len(),
    ensures
        r is Some == text::all_digits(unsigned(v@.skip(at as int))),
        r is Some ==> -far() <= r->0 <= far(),
        r is Some ==> r->0 == signed_value(v@.skip(at as int)) || (r->0 == far() && signed_value(
            v@.skip(at as int),
        ) >= far()) || (r->0 == -far() && signed_value(v@.skip(at as int)) <= -far()),
{
    let ghost x = v@.skip(at as int);
    let n: usize = v.len();
    let (down, from): (bool, usize) = if at < n && (v[at] == '+' || v[at] == '-') {
        (v[at] == '-', at + 1)
    } else {
        (false, at)
    };
    proof {
        if at < n {
            assert(x[0] == v@[at as int]);
        }
        assert(v@.skip(from as int) =~= unsigned(x));
        assert(v@.subrange(from as int, n as int) =~= unsigned(x));
    }
    if from >= n || !digits_between(v, from, n) {
        return None;
    }
    let e: i128 = capped_value(v, from);
    if down {
        Some(-e)
    } else {
        Some(e)
    }
}

/// The number that digits, a point and an exponent write out, where they do.
fn number_of(neg: bool, body: &str) -> (r: Option<Double>)
    ensures
        r is Some == is_number(body@),
        r is Some ==> r->0@ == double::finite(
            neg,
            scaled(text::digits_value(before(body@) + behind(body@)), exponent(body@)),
        ),
{
    let ghost b = body@;
    let v = chars_of(body);
    let m: usize = find_char(&chars_of(&lower_text(body)), 'e', 0);
    let mantissa = chars_of(&string_of(&v, 0, m));
    assert(mantissa@ =~= b.take(m as int));
    let p: usize = find_char(&mantissa, '.', 0);
    let tail: usize = if p < m {
        p + 1
    } else {
        m
    };
    proof {
        assert(v@.subrange(0, p as int) =~= before(b));
        assert(v@.subrange(tail as int, m as int) =~= behind(b));
    }
    if !digits_between(&v, 0, p) || !digits_between(&v, tail, m) {
        return None;
    }
    let mut digits: Vec<char> = Vec::new();
    put_between(&mut digits, &v, 0, p);
    put_between(&mut digits, &v, tail, m);
    assert(digits@ =~= before(b) + behind(b));
    if digits.len() == 0 {
        return None;
    }
    let e: i128 = if m < v.len() {
        match exponent_at(&v, m + 1) {
            Some(e) => e,
            None => {
                return None;
            },
        }
    } else {
        0
    };
    let e: i128 = e - (m - tail) as i128;
    let x = big_of(&digits);
    proof {
        lemma_far(big(x@), digits@.len(), e as int, exponent(b));
    }
    Some(nearest_scaled(neg, x, digits.len(), e))
}

/// The number that a text is, where it is one.
pub fn parse_double(s: &str) -> (r: Option<Double>)
    ensures
        r is Some == parsed(s@) is Some,
        r is Some ==> r->0@ == parsed(s@)->0,
{
    let all = chars_of(s);
    let neg: bool = all.len() > 0 && all[0] == '-';
    let start: usize = if all.len() > 0 && (all[0] == '+' || all[0] == '-') {
        1
    } else {
        0
    };
    let body: String = string_of(&all, start, all.len());
    assert(body@ =~= unsigned(s@));
    let small: String = lower_text(&body);
    if same(&small, "inf") || same(&small, "infinity") {
        Some(Double::infinity(neg))
    } else if same(&small, "nan") {
        Some(Double::nan())
    } else {
        number_of(neg, &body)
    }
}

/// The tenths nearest to `k` units; of two that are equally near, the even
/// one.
pub open spec fn tenths(k: nat) -> nat {
    let (q, r) = (10 * k / double::one(), 10 * k % double::one());
    if 2 * r > double::one() || (2 * r == double::one() && q % 2 == 1) {
        q + 1
    } else {
        q
    }
}

/// A number written with one decimal.
pub open spec fn fixed(v: Real) -> Seq<char> {
    match v {
        Real::Nan => "NaN"@,
        Real::Infinite(neg) => if neg {
            "-inf"@
        } else {
            "inf"@
        },
        Real::Finite(neg, k) => (if neg {
            "-"@
        } else {
            ""@
        }) + text::decimal(tenths(k) / 10) + "."@ + text::decimal(tenths(k) % 10),
    }
}

/// A big number in decimal.
pub(crate) fn big_text(v: Vec<u32>) -> (r: String)
    ensures
        r@ == text::decimal(big(v@)),
    decreases big(v@),
{
    let (q, digit) = div_small(&v, 10);
    if q.len() == 0 {
        assert(low(q@, 0) == 0);
        decimal_text(digit as u64)
    } else {
        proof {
            lemma_top_limb(q@, 0);
            lemma_high_all(q@);
        }
        let mut r: String = big_text(q);
        r.push((48 + digit as u8) as char);
        r
    }
}

/// The limbs of a number.
pub(crate) fn limbs(n: u64) -> (r: Vec<u32>)
    ensures
        big(r@) == n,
        r@.len() > 0 ==> r@.last() != 0,
{
    let none: Vec<u32> = Vec::new();
    assert(low(none@, 0) == 0);
    let top: Vec<u32> = mul_add(&none, 0, (n / 0x1_0000_0000) as u32);
    let mid: Vec<u32> = mul_add(&top, 0x1_0000, 0);
    let mid: Vec<u32> = mul_add(&mid, 0x1_0000, 0);
    mul_add(&mid, 1, (n % 0x1_0000_0000) as u32)
}

/// `m * 2^s` units in tenths, where that is more than all fractions.
fn high_tenths(m: u64, s: u32) -> (r: Vec<u32>)
    requires
        m < 0x20_0000_0000_0000,
        1074 <= s <= 2045,
    ensures
        big(r@) == tenths(m as nat * pow2(s as nat)),
{
    let mut r: Vec<u32> = limbs(10 * m);
    let mut i: u32 = 1074;
    let ghost o = double::one();
    proof {
        lemma2_to64();
        assert((10 * m as nat) * 1 == 10 * m as nat);
    }
    while i < s
        invariant
            1074 <= i <= s,
            big(r@) == (10 * m as nat) * pow2((i - 1074) as nat),
        decreases s - i,
    {
        r = mul_add(&r, 2, 0);
        proof {
            lemma2_to64();
            lemma_pow2_adds(1, (i - 1074) as nat);
            let (a, b) = (10 * m as nat, pow2((i - 1074) as nat));
            assert(a * b * 2 == a * (2 * b)) by (nonlinear_arith);
        }
        i = i + 1;
    }
    proof {
        let (a, b, k) = (10 * m as nat, pow2((s - 1074) as nat), m as nat * pow2(s as nat));
        lemma_pow2_adds((s - 1074) as nat, 1074);
        lemma_pow2_pos(1074);
        assert(10 * k == (a * b) * o) by (nonlinear_arith)
            requires
                k == m as nat * (b * o),
                a == 10 * m as nat,
        ;
        vstd::arithmetic::div_mod::lemma_div_multiples_vanish((a * b) as int, o as int);
        vstd::arithmetic::div_mod::lemma_mod_multiples_basic((a * b) as int, o as int);
        assert(o * (a * b) == (a * b) * o) by (nonlinear_arith);
    }
    r
}

/// `m * 2^s` units in tenths, where a fraction may be left.
fn low_tenths(m: u64, s: u32) -> (r: u64)
    requires
        m < 0x20_0000_0000_0000,
        s < 1074,
    ensures
        r == tenths(m as nat * pow2(s as nat)),
{
    let d: u32 = 1074 - s;
    let t: u64 = 10 * m;
    let ghost (o, k) = (double::one(), m as nat * pow2(s as nat));
    proof {
        lemma_pow2_adds(d as nat, s as nat);
        lemma_pow2_pos(s as nat);
        lemma_pow2_pos(d as nat);
        let (p, w) = (pow2(d as nat), pow2(s as nat));
        lemma_fundamental_div_mod(t as int, p as int);
        let (q, r) = (t as nat / p, t as nat % p);
        assert(10 * k == o * q + r * w) by (nonlinear_arith)
            requires
                k == m as nat * w,
                t == 10 * m,
                t == p * q + r,
                o == p * w,
        ;
        assert(r * w < o) by (nonlinear_arith)
            requires
                r < p,
                o == p * w,
                w > 0,
        ;
        assert(0 <= r * w) by (nonlinear_arith);
        assert(o * q == q * o) by (nonlinear_arith);
        vstd::arithmetic::div_mod::lemma_fundamental_div_mod_converse(
            (10 * k) as int,
            o as int,
            q as int,
            (r * w) as int,
        );
        assert((2 * (r * w) > o) == (2 * r > p)) by (nonlinear_arith)
            requires
                o == p * w,
                w > 0,
        ;
        assert((2 * (r * w) == o) == (2 * r == p)) by (nonlinear_arith)
            requires
                o == p * w,
                w > 0,
        ;
        if d > 60 {
            lemma_pow2_strictly_increases(60, d as nat);
        }
        lemma2_to64_rest();
        if d >= 60 {
            assert(q == 0 && r == t) by {
                vstd::arithmetic::div_mod::lemma_fundamental_div_mod_converse(
                    t as int,
                    p as int,
                    0,
                    t as int,
                );
            }
        }
    }
    if d >= 60 {
        return 0;
    }
    let p: u128 = power(d);
    let (q, r): (u128, u128) = (t as u128 / p, t as u128 % p);
    assert(q <= t) by (nonlinear_arith)
        requires
            q == t as u128 / p,
            p > 0,
    ;
    if 2 * r > p || (2 * r == p && q % 2 == 1) {
        q as u64 + 1
    } else {
        q as u64
    }
}

/// A number written with one decimal.
pub fn fixed_text(d: Double) -> (r: String)
    ensures
        r@ == fixed(d@),
{
    if d.is_nan() {
        return "NaN".to_owned();
    }
    let sign: &str = if d.sign() {
        "-"
    } else {
        ""
    };
    if d.is_infinite() {
        proof {
            reveal_strlit("-");
            reveal_strlit("");
            reveal_strlit("inf");
            reveal_strlit("-inf");
            assert("-"@ + "inf"@ =~= "-inf"@);
            assert(""@ + "inf"@ =~= "inf"@);
        }
        return joined(sign, "inf");
    }
    let (m, s) = d.parts();
    let v: Vec<u32> = if s >= 1074 {
        high_tenths(m, s)
    } else {
        limbs(low_tenths(m, s))
    };
    let (q, digit) = div_small(&v, 10);
    joined(sign, &big_text(q)).concat(".").concat(&decimal_text(digit as u64))
}

} // verus!
