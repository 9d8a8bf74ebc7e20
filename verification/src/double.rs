//! Numbers as a double holds them.
//!
//! A percentage is worked out in double precision before it is rounded to what is shown: each
//! step gives the double nearest to its exact result, of two that are as near the even one. Where
//! a fraction that no double holds comes close to a half, the steps decide which way it falls. So
//! they are taken here one by one, in whole numbers.

use vstd::prelude::*;

use crate::num::{
    clamp_i64, doublings, half_even, half_even_quotient, lemma_pow10_grows, lemma_power_add,
    lemma_power_grows, lemma_power_positive, magnitude_of, magnitude_value, pow10, power,
    round_div, saturate, ten_to, Micros, DOUBLE_DIGITS, UNIT,
};
use crate::text::{dec, dec_places, push_dec, push_places};

verus! {

/// A number that a double holds, zero or more: `digits` times two to the `exp`.
pub struct Held {
    pub digits: nat,
    pub exp: int,
}

/// How often `c` doubles before `a` is below 2^53 times it.
pub open spec fn halvings(a: nat, c: nat) -> nat
    decreases a - c,
{
    if 0 < c && 2 * (DOUBLE_DIGITS * c) <= a {
        1 + halvings(a, 2 * c)
    } else {
        0
    }
}

/// The digits of the double nearest to `n / d`.
pub open spec fn nearest_digits(n: nat, d: nat) -> nat {
    half_even(n * power(2, doublings(n, d)), d * power(2, halvings(n, d)))
}

/// The double nearest to `n / d` times two to the `e`.
#[verifier::opaque]
pub open spec fn nearest(n: nat, d: nat, e: int) -> Held {
    let h = nearest_digits(n, d);
    let at = e - doublings(n, d) + halvings(n, d);
    if n == 0 {
        Held { digits: 0, exp: 0 }
    } else if h == 2 * DOUBLE_DIGITS {
        Held { digits: DOUBLE_DIGITS as nat, exp: at + 1 }
    } else {
        Held { digits: h, exp: at }
    }
}

impl Held {
    /// Zero, or digits that fill a double's 53 places.
    pub open spec fn wf(self) -> bool {
        ||| self.digits == 0 && self.exp == 0
        ||| DOUBLE_DIGITS <= self.digits < 2 * DOUBLE_DIGITS
    }

    /// `self < other`.
    pub open spec fn below(self, other: Held) -> bool {
        if self.digits == 0 || other.digits == 0 {
            self.digits < other.digits
        } else {
            self.exp < other.exp || (self.exp == other.exp && self.digits < other.digits)
        }
    }

    /// The greater of the two.
    pub open spec fn max(self, other: Held) -> Held {
        if self.below(other) {
            other
        } else {
            self
        }
    }

    /// The lesser of the two.
    pub open spec fn min(self, other: Held) -> Held {
        if other.below(self) {
            other
        } else {
            self
        }
    }

    /// The double nearest to the product.
    pub open spec fn times(self, other: Held) -> Held {
        nearest(self.digits * other.digits, 1, self.exp + other.exp)
    }

    /// The double nearest to the quotient.
    pub open spec fn over(self, other: Held) -> Held {
        nearest(self.digits, other.digits, self.exp - other.exp)
    }

    /// `self` times `m`, exactly, as a fraction.
    pub open spec fn fraction(self, m: nat) -> (nat, nat) {
        if self.exp >= 0 {
            (self.digits * m * power(2, self.exp as nat), 1)
        } else {
            (self.digits * m, power(2, (-self.exp) as nat))
        }
    }

    /// The nearest whole number, halves away from zero.
    pub open spec fn rounded(self) -> int {
        let (n, d) = self.fraction(1);
        round_div(n as int, d as int)
    }

    /// The whole part.
    pub open spec fn whole(self) -> int {
        let (n, d) = self.fraction(1);
        n as int / d as int
    }

    /// Units of ten to the minus `d`, to the nearest, halves to the even one.
    pub open spec fn shown(self, d: nat) -> nat {
        let (n, c) = self.fraction(pow10(d));
        half_even(n, c)
    }

    /// Whole millionths, with what is finer dropped.
    pub open spec fn cut(self) -> int {
        let (n, d) = self.fraction(UNIT as nat);
        n as int / d as int
    }
}

/// The double nearest to a whole number.
pub open spec fn held_whole(n: nat) -> Held {
    nearest(n, 1, 0)
}

/// The double nearest to an amount of millionths.
pub open spec fn held_micros(v: nat) -> Held {
    nearest(v, UNIT as nat, 0)
}

/// A double in decimal notation with `d` places.
pub open spec fn held_text(x: Held, d: nat) -> Seq<char> {
    let h = x.shown(d);
    dec(h / pow10(d)) + (if d == 0 {
        Seq::empty()
    } else {
        seq!['.'] + dec_places(h, d)
    })
}

/// 2^63, the end of what is printed.
pub open spec fn print_limit() -> Held {
    Held { digits: DOUBLE_DIGITS as nat, exp: 11 }
}

/// The percentage that an amount is of another, as a double.
pub open spec fn held_pct(part: nat, whole: nat) -> Held {
    held_micros(part).over(held_micros(whole)).times(held_whole(100))
}

/// The double nearest to an amount of millionths, in parts of 2^-72: each such double is a whole
/// number of them.
pub open spec fn steps(v: int) -> int {
    let x = held_micros(magnitude_of(v));
    let n = (x.digits * power(2, (x.exp + 72) as nat)) as int;
    if v < 0 {
        -n
    } else {
        n
    }
}

/// How far the double of `a` lies above that of `b`, as a double; zero where it does not.
pub open spec fn held_gap(a: int, b: int) -> Held {
    nearest(
        (if steps(a) > steps(b) {
            steps(a) - steps(b)
        } else {
            0
        }) as nat,
        1,
        -72,
    )
}

/// The whole part of how far the double of `a` lies above that of `b`, or below it.
pub open spec fn whole_gap(a: int, b: int) -> int {
    if a >= b {
        clamp_i64(held_gap(a, b).whole())
    } else {
        -clamp_i64(held_gap(b, a).whole())
    }
}

/// Seconds until `left` is used up at so many millionths an hour, as a double.
pub open spec fn held_eta(left: Held, per_hr: int) -> Held {
    left.over(held_micros(per_hr as nat)).times(held_whole(3_600))
}

/// A number of zero or more in double precision.
#[derive(Clone, Copy, PartialEq, Eq, Debug, Structural)]
pub struct Double {
    pub digits: u64,
    pub exp: i32,
}

impl View for Double {
    type V = Held;

    open spec fn view(&self) -> Held {
        Held { digits: self.digits as nat, exp: self.exp as int }
    }
}

proof fn lemma_power_below(k: nat)
    requires
        power(2, k) < 0x100_0000_0000_0000_0000_0000_0000_0000,
    ensures
        k < 120,
{
    lemma_power_120();
    if k >= 120 {
        lemma_power_grows(2, 120, k);
    }
}

/// The double nearest to `n / d` times two to the `e`.
fn nearest_double(n: u128, d: u64, e: i32) -> (r: Double)
    requires
        d > 0,
        n < 0x100_0000_0000_0000_0000_0000_0000_0000,
        -10_000 <= e <= 10_000,
    ensures
        r@ == nearest(n as nat, d as nat, e as int),
        r@.wf(),
        n > 0 ==> r.digits > 0 && e - 200 <= r.exp <= e + 200,
        n == 0 ==> r.digits == 0 && r.exp == 0,
{
    proof {
        reveal(nearest);
    }
    if n == 0 {
        return Double { digits: 0, exp: 0 };
    }
    let first: u128 = DOUBLE_DIGITS * d as u128;
    let mut a: u128 = n;
    let mut up: i32 = 0;
    proof {
        assert(n * 1 == n && d * 1 == d);
        assert(halvings(n as nat, d as nat) == 0 || doublings(n as nat, d as nat) == 0);
    }
    while a < first
        invariant
            d > 0,
            first == DOUBLE_DIGITS * d,
            0 < n,
            0 < a,
            0 <= up < 120,
            a == n * power(2, up as nat),
            power(2, up as nat) <= a,
            up > 0 ==> n < first && a < 2 * first,
            doublings(n as nat, d as nat) == up + doublings(a as nat, d as nat),
        decreases 2 * first - a,
    {
        proof {
            let p = power(2, up as nat);
            assert(power(2, (up + 1) as nat) == 2 * p);
            assert(n * (2 * p) == 2 * (n * p)) by (nonlinear_arith);
            lemma_power_below((up + 1) as nat);
        }
        a = 2 * a;
        up = up + 1;
    }
    let mut c: u128 = d as u128;
    let mut down: i32 = 0;
    while 2 * (DOUBLE_DIGITS * c) <= a
        invariant
            d > 0,
            first == DOUBLE_DIGITS * d,
            0 < n,
            0 <= up < 120,
            up > 0 ==> n < first && a < 2 * first && down == 0,
            up == 0 ==> a == n,
            a < 0x100_0000_0000_0000_0000_0000_0000_0000,
            0 <= down < 120,
            0 < c,
            c == d * power(2, down as nat),
            power(2, down as nat) <= c,
            DOUBLE_DIGITS * c <= a,
            up == 0 ==> halvings(n as nat, d as nat) == down + halvings(a as nat, c as nat),
        decreases a - c,
    {
        proof {
            let p = power(2, down as nat);
            assert(down == 0 ==> c == d) by {
                assert(d * 1 == d);
            }
            assert(power(2, (down + 1) as nat) == 2 * p);
            assert(d * (2 * p) == 2 * (d * p)) by (nonlinear_arith);
            lemma_power_below((down + 1) as nat);
        }
        c = 2 * c;
        down = down + 1;
    }
    assert(doublings(n as nat, d as nat) == up);
    assert(halvings(n as nat, d as nat) == down);
    let h: u128 = if c == 1 {
        a
    } else {
        half_even_quotient(a, c)
    };
    proof {
        assert(half_even(a as nat, 1) == a);
        lemma_half_even_bounds(a as nat, c as nat);
        assert(n * power(2, up as nat) == a);
    }
    if h == 2 * DOUBLE_DIGITS {
        Double { digits: DOUBLE_DIGITS as u64, exp: e - up + down + 1 }
    } else {
        Double { digits: h as u64, exp: e - up + down }
    }
}

proof fn lemma_half_even_bounds(a: nat, c: nat)
    requires
        c > 0,
        DOUBLE_DIGITS * c <= a < 2 * (DOUBLE_DIGITS * c),
    ensures
        DOUBLE_DIGITS <= half_even(a, c) <= 2 * DOUBLE_DIGITS,
{
    let q = a / c;
    assert(DOUBLE_DIGITS <= q < 2 * DOUBLE_DIGITS) by (nonlinear_arith)
        requires
            q == a / c,
            c > 0,
            DOUBLE_DIGITS * c <= a < 2 * (DOUBLE_DIGITS * c),
    ;
}

/// Two to the 120th.
proof fn lemma_power_120()
    ensures
        power(2, 120) == 0x100_0000_0000_0000_0000_0000_0000_0000,
{
    lemma_power_add(2, 60, 60);
    assert(power(2, 60) == 0x1000_0000_0000_0000) by {
        reveal_with_fuel(power, 61);
    }
    assert(0x1000_0000_0000_0000int * 0x1000_0000_0000_0000
        == 0x100_0000_0000_0000_0000_0000_0000_0000) by (nonlinear_arith);
}

fn two_to(k: i32) -> (r: u128)
    requires
        0 <= k <= 120,
    ensures
        r == power(2, k as nat),
        1 <= r <= 0x100_0000_0000_0000_0000_0000_0000_0000,
{
    let mut r: u128 = 1;
    let mut i: i32 = 0;
    while i < k
        invariant
            0 <= i <= k <= 120,
            r == power(2, i as nat),
            1 <= r <= 0x100_0000_0000_0000_0000_0000_0000_0000,
        decreases k - i,
    {
        proof {
            lemma_power_grows(2, (i + 1) as nat, 120);
            lemma_power_120();
        }
        r = 2 * r;
        i = i + 1;
    }
    r
}

impl Double {
    pub open spec fn wf(self) -> bool {
        self@.wf() && -5_000 <= self.exp <= 5_000
    }

    pub fn of_whole(n: u64) -> (r: Self)
        ensures
            r@ == held_whole(n as nat),
            r.wf(),
            -200 <= r.exp <= 200,
            n > 0 ==> r.digits > 0,
    {
        nearest_double(n as u128, 1, 0)
    }

    pub fn of_micros(v: u64) -> (r: Self)
        ensures
            r@ == held_micros(v as nat),
            r.wf(),
            -200 <= r.exp <= 200,
            v > 0 ==> r.digits > 0,
    {
        nearest_double(v as u128, UNIT as u64, 0)
    }

    pub fn is_below(self, other: Double) -> (b: bool)
        ensures
            b == self@.below(other@),
    {
        if self.digits == 0 || other.digits == 0 {
            self.digits < other.digits
        } else {
            self.exp < other.exp || (self.exp == other.exp && self.digits < other.digits)
        }
    }

    pub fn greater(self, other: Double) -> (r: Self)
        ensures
            r@ == self@.max(other@),
            r == self || r == other,
    {
        if self.is_below(other) {
            other
        } else {
            self
        }
    }

    pub fn lesser(self, other: Double) -> (r: Self)
        ensures
            r@ == self@.min(other@),
            r == self || r == other,
    {
        if other.is_below(self) {
            other
        } else {
            self
        }
    }

    /// `self`, or 2^63 if that is less.
    pub fn printable(self) -> (r: Self)
        requires
            self.wf(),
        ensures
            r@ == self@.min(print_limit()),
            r.wf(),
            r.exp <= 50,
    {
        self.lesser(Double { digits: DOUBLE_DIGITS as u64, exp: 11 })
    }

    pub fn times(self, other: Double) -> (r: Self)
        requires
            self.wf(),
            other.wf(),
        ensures
            r@ == self@.times(other@),
            r@.wf(),
            r.digits > 0 ==> self.exp + other.exp - 200 <= r.exp <= self.exp + other.exp + 200,
    {
        proof {
            assert(0 <= self.digits * other.digits
                < 0x100_0000_0000_0000_0000_0000_0000_0000) by (nonlinear_arith)
                requires
                    0 <= self.digits < 0x20_0000_0000_0000,
                    0 <= other.digits < 0x20_0000_0000_0000,
            ;
        }
        nearest_double(self.digits as u128 * other.digits as u128, 1, self.exp + other.exp)
    }

    pub fn over(self, other: Double) -> (r: Self)
        requires
            self.wf(),
            other.wf(),
            other.digits > 0,
        ensures
            r@ == self@.over(other@),
            r@.wf(),
            r.digits > 0 ==> self.exp - other.exp - 200 <= r.exp <= self.exp - other.exp + 200,
            self.digits > 0 ==> r.digits > 0,
    {
        nearest_double(self.digits as u128, other.digits, self.exp - other.exp)
    }

    /// The exact fraction that `self` times `m` is, where it is neither far above the integers
    /// nor far below one.
    fn parts(self, m: u64) -> (r: (u128, u128))
        requires
            self@.wf(),
            -100 <= self.exp <= 50,
            1 <= m <= 1_000_000,
        ensures
            (r.0 as nat, r.1 as nat) == self@.fraction(m as nat),
            r.0 < 0x800_0000_0000_0000_0000_0000_0000_0000,
            1 <= r.1 <= 0x100_0000_0000_0000_0000_0000_0000_0000,
            self.exp < 0 ==> r.1 >= 2,
            self.exp >= 0 ==> r.1 == 1,
    {
        assert(self.digits * m <= 0x20_0000_0000_0000 * 1_000_000) by (nonlinear_arith)
            requires
                self.digits < 0x20_0000_0000_0000,
                m <= 1_000_000,
        ;
        let n: u128 = self.digits as u128 * m as u128;
        if self.exp >= 0 {
            let scale: u128 = two_to(self.exp);
            proof {
                lemma_power_grows(2, self.exp as nat, 50);
                assert(power(2, 50) == 0x4_0000_0000_0000) by {
                    reveal_with_fuel(power, 51);
                }
                assert(n * scale <= 0x20_0000_0000_0000 * 1_000_000 * 0x4_0000_0000_0000)
                    by (nonlinear_arith)
                    requires
                        n <= 0x20_0000_0000_0000 * 1_000_000,
                        scale <= 0x4_0000_0000_0000,
                ;
            }
            (n * scale, 1)
        } else {
            proof {
                lemma_power_grows(2, 1, (-self.exp) as nat);
                reveal_with_fuel(power, 2);
            }
            (n, two_to(-self.exp))
        }
    }

    /// The nearest whole number, halves away from zero; the end of the range beyond it.
    pub fn round(self) -> (r: i64)
        requires
            self@.wf(),
        ensures
            r == clamp_i64(self@.rounded()),
    {
        proof {
            lemma_far(self@, 1);
        }
        if self.exp > 50 {
            return i64::MAX;
        }
        if self.exp < -100 {
            return 0;
        }
        let (n, d) = self.parts(1);
        saturate(((2 * n + d) / (2 * d)) as i128)
    }

    /// Units of ten to the minus `d`, to the nearest, halves to the even one.
    pub fn to_places(self, d: u8) -> (r: u128)
        requires
            self@.wf(),
            self.exp <= 50,
            d <= 6,
        ensures
            r == self@.shown(d as nat),
    {
        let m: u128 = ten_to(d);
        proof {
            lemma_pow10_grows(d as nat, 6);
            reveal_with_fuel(pow10, 7);
            lemma_far(self@, m as nat);
        }
        if self.exp < -100 {
            return 0;
        }
        let (n, c) = self.parts(m as u64);
        if c == 1 {
            assert(half_even(n as nat, 1) == n);
            n
        } else {
            half_even_quotient(n, c)
        }
    }

    /// The whole part; the end of the range beyond it.
    pub fn whole(self) -> (r: i64)
        requires
            self@.wf(),
        ensures
            r == clamp_i64(self@.whole()),
    {
        proof {
            lemma_far(self@, 1);
        }
        if self.exp > 50 {
            return i64::MAX;
        }
        if self.exp < -100 {
            return 0;
        }
        let (n, d) = self.parts(1);
        saturate((n / d) as i128)
    }

    /// Whole millionths, with what is finer dropped; the end of the range beyond it.
    pub fn cut(self) -> (r: Micros)
        requires
            self@.wf(),
        ensures
            r == clamp_i64(self@.cut()),
    {
        proof {
            lemma_far(self@, UNIT as nat);
        }
        if self.exp > 50 {
            return i64::MAX;
        }
        if self.exp < -100 {
            return 0;
        }
        let (n, d) = self.parts(UNIT as u64);
        saturate((n / d) as i128)
    }
}

/// Two to the fiftieth, and twice that.
proof fn lemma_power_50()
    ensures
        power(2, 50) == 0x4_0000_0000_0000,
        power(2, 51) == 0x8_0000_0000_0000,
{
    assert(power(2, 50) == 0x4_0000_0000_0000) by {
        reveal_with_fuel(power, 51);
    }
}

/// What is far above the integers, and what is far below one.
proof fn lemma_far(x: Held, m: nat)
    requires
        x.wf(),
        1 <= m <= 1_000_000,
    ensures
        x.exp > 50 ==> x.fraction(m).1 == 1 && x.fraction(m).0 > i64::MAX && round_div(
            x.fraction(m).0 as int,
            1,
        ) == x.fraction(m).0,
        x.exp < -100 ==> ({
            let (n, d) = x.fraction(m);
            &&& n / d == 0
            &&& round_div(n as int, d as int) == 0
            &&& half_even(n, d) == 0
        }),
{
    if x.exp > 50 {
        lemma_far_above(x, m);
    }
    if x.exp < -100 {
        lemma_far_below(x, m);
    }
}

proof fn lemma_far_above(x: Held, m: nat)
    requires
        x.wf(),
        1 <= m,
        x.exp > 50,
    ensures
        x.fraction(m).1 == 1,
        x.fraction(m).0 > i64::MAX,
        round_div(x.fraction(m).0 as int, 1) == x.fraction(m).0,
{
    let p = power(2, x.exp as nat);
    lemma_power_grows(2, 51, x.exp as nat);
    lemma_power_50();
    let n = x.digits * m;
    assert(n >= 0x10_0000_0000_0000) by (nonlinear_arith)
        requires
            n == x.digits * m,
            x.digits >= 0x10_0000_0000_0000,
            m >= 1,
    ;
    assert(n * p >= 0x10_0000_0000_0000 * 0x8_0000_0000_0000) by (nonlinear_arith)
        requires
            n >= 0x10_0000_0000_0000,
            p >= 0x8_0000_0000_0000,
    ;
    let v = (n * p) as int;
    assert(v >= 0 && (2 * v + 1) / 2 == v);
}

proof fn lemma_far_below(x: Held, m: nat)
    requires
        x.wf(),
        m <= 1_000_000,
        x.exp < -100,
    ensures
        ({
            let (n, d) = x.fraction(m);
            &&& n / d == 0
            &&& round_div(n as int, d as int) == 0
            &&& half_even(n, d) == 0
        }),
{
    let k = (-x.exp) as nat;
    lemma_power_grows(2, 100, k);
    lemma_power_50();
    lemma_power_add(2, 50, 50);
    assert(0x4_0000_0000_0000int * 0x4_0000_0000_0000 == 0x10_0000_0000_0000_0000_0000_0000)
        by (nonlinear_arith);
    let n = x.digits * m;
    let d = power(2, k);
    assert(n <= 0x20_0000_0000_0000 * 1_000_000) by (nonlinear_arith)
        requires
            n == x.digits * m,
            x.digits < 0x20_0000_0000_0000,
            m <= 1_000_000,
    ;
    assert(4 * n < d);
    vstd::arithmetic::div_mod::lemma_basic_div(n as int, d as int);
    vstd::arithmetic::div_mod::lemma_small_mod(n, d);
    vstd::arithmetic::div_mod::lemma_basic_div((2 * n + d) as int, (2 * d) as int);
}

proof fn lemma_half_even_scale(a: nat, b: nat, k: nat)
    requires
        b > 0,
        k > 0,
    ensures
        b * k > 0,
        half_even(a * k, b * k) == half_even(a, b),
{
    let q = (a / b) as int;
    let r = (a % b) as int;
    assert(a == b * q + r) by {
        vstd::arithmetic::div_mod::lemma_fundamental_div_mod(a as int, b as int);
    }
    assert(a * k == (b * k) * q + r * k && 0 <= r * k < b * k) by (nonlinear_arith)
        requires
            a == b * q + r,
            0 <= r < b,
            k > 0,
    ;
    assert(a * k == q * (b * k) + r * k) by (nonlinear_arith)
        requires
            a * k == (b * k) * q + r * k,
    ;
    vstd::arithmetic::div_mod::lemma_fundamental_div_mod_converse(
        (a * k) as int,
        (b * k) as int,
        q,
        r * k,
    );
    assert((2 * r < b) == (2 * (r * k) < b * k) && (2 * r == b) == (2 * (r * k) == b * k))
        by (nonlinear_arith)
        requires
            k > 0,
    ;
}

proof fn lemma_half_even_grows(a: nat, b: nat, c: nat)
    requires
        c > 0,
        a <= b,
    ensures
        half_even(a, c) <= half_even(b, c),
{
    vstd::arithmetic::div_mod::lemma_fundamental_div_mod(a as int, c as int);
    vstd::arithmetic::div_mod::lemma_fundamental_div_mod(b as int, c as int);
    let (p, q) = ((a / c) as int, (b / c) as int);
    assert(p <= q && (p < q || a % c <= b % c)) by (nonlinear_arith)
        requires
            a == c * p + a % c,
            b == c * q + b % c,
            0 <= a % c < c,
            0 <= b % c < c,
            a <= b,
    ;
}

proof fn lemma_doublings_scale(n: nat, d: nat, k: nat)
    requires
        k > 0,
    ensures
        doublings(n * k, d * k) == doublings(n, d),
    decreases doublings(n, d),
{
    let top = DOUBLE_DIGITS * d;
    assert((0 < n < top) == (0 < n * k < top * k)) by (nonlinear_arith)
        requires
            k > 0,
    ;
    assert(DOUBLE_DIGITS * (d * k) == top * k) by (nonlinear_arith)
        requires
            top == DOUBLE_DIGITS * d,
    ;
    if 0 < n < top {
        lemma_doublings_scale(2 * n, d, k);
        assert((2 * n) * k == 2 * (n * k)) by (nonlinear_arith);
    }
}

proof fn lemma_halvings_scale(n: nat, d: nat, k: nat)
    requires
        k > 0,
    ensures
        halvings(n * k, d * k) == halvings(n, d),
    decreases halvings(n, d),
{
    let top = DOUBLE_DIGITS * d;
    assert((0 < d && 2 * top <= n) == (0 < d * k && 2 * (top * k) <= n * k)) by (nonlinear_arith)
        requires
            k > 0,
    ;
    assert(DOUBLE_DIGITS * (d * k) == top * k) by (nonlinear_arith)
        requires
            top == DOUBLE_DIGITS * d,
    ;
    if 0 < d && 2 * top <= n {
        lemma_halvings_scale(n, 2 * d, k);
        assert((2 * d) * k == 2 * (d * k)) by (nonlinear_arith);
    }
}

/// A quotient's double is that of the quotient, however it is written.
pub(crate) proof fn lemma_nearest_scale(n: nat, d: nat, e: int, k: nat)
    requires
        d > 0,
        k > 0,
    ensures
        nearest(n * k, d * k, e) == nearest(n, d, e),
{
    reveal(nearest);
    lemma_doublings_scale(n, d, k);
    lemma_halvings_scale(n, d, k);
    let up = power(2, doublings(n, d));
    let down = power(2, halvings(n, d));
    lemma_power_positive(2, halvings(n, d));
    assert(d * down > 0) by (nonlinear_arith)
        requires
            d > 0,
            down > 0,
    ;
    lemma_half_even_scale(n * up, d * down, k);
    assert((n * k) * up == (n * up) * k && (d * k) * down == (d * down) * k) by (nonlinear_arith);
    assert((n * k == 0) == (n == 0)) by (nonlinear_arith)
        requires
            k > 0,
    ;
}

/// Twice a number is the number a place further up.
proof fn lemma_nearest_shift(n: nat, d: nat, e: int)
    requires
        d > 0,
    ensures
        nearest(2 * n, d, e) == nearest(n, d, e + 1),
{
    reveal(nearest);
    if n == 0 {
    } else if n < DOUBLE_DIGITS * d {
        let u = doublings(2 * n, d);
        assert(doublings(n, d) == 1 + u);
        assert(power(2, 1 + u) == 2 * power(2, u));
        assert((2 * n) * power(2, u) == n * (2 * power(2, u))) by (nonlinear_arith);
        assert(nearest_digits(2 * n, d) == nearest_digits(n, d));
    } else {
        lemma_halvings_scale(n, d, 2);
        let w = halvings(n, d);
        assert(halvings(2 * n, d) == 1 + w);
        assert(power(2, 1 + w) == 2 * power(2, w));
        lemma_power_positive(2, w);
        let c = d * power(2, w);
        assert(c > 0 && d * (2 * power(2, w)) == c * 2) by (nonlinear_arith)
            requires
                c == d * power(2, w),
                d > 0,
                power(2, w) > 0,
        ;
        lemma_half_even_scale(n, c, 2);
        assert((2 * n) * 1 == n * 2 && n * 1 == n);
        assert(nearest_digits(2 * n, d) == half_even(n * 2, c * 2));
        assert(nearest_digits(n, d) == half_even(n, c));
    }
}

pub(crate) proof fn lemma_nearest_shift_by(n: nat, d: nat, e: int, k: nat)
    requires
        d > 0,
    ensures
        nearest(n * power(2, k), d, e) == nearest(n, d, e + k),
    decreases k,
{
    if k > 0 {
        let p = power(2, (k - 1) as nat);
        lemma_nearest_shift_by(n, d, e + 1, (k - 1) as nat);
        lemma_nearest_shift(n * p, d, e);
        assert(2 * (n * p) == n * (2 * p)) by (nonlinear_arith);
    } else {
        assert(n * 1 == n);
    }
}

/// Where the digits of a double stand before they are rounded.
pub(crate) proof fn lemma_fits(n: nat, d: nat)
    requires
        n > 0,
        d > 0,
    ensures
        doublings(n, d) == 0 || halvings(n, d) == 0,
        d * power(2, halvings(n, d)) > 0,
        DOUBLE_DIGITS * (d * power(2, halvings(n, d))) <= n * power(2, doublings(n, d)) < 2 * (
        DOUBLE_DIGITS * (d * power(2, halvings(n, d)))),
        DOUBLE_DIGITS <= nearest_digits(n, d) <= 2 * DOUBLE_DIGITS,
{
    if n < DOUBLE_DIGITS * d {
        lemma_doubled(n, d);
    } else {
        lemma_halved(n, d);
        assert(n * 1 == n);
    }
    assert(d * 1 == d);
    lemma_half_even_bounds(n * power(2, doublings(n, d)), d * power(2, halvings(n, d)));
}

proof fn lemma_doubled(n: nat, d: nat)
    requires
        0 < n < 2 * (DOUBLE_DIGITS * d),
    ensures
        DOUBLE_DIGITS * d <= n * power(2, doublings(n, d)) < 2 * (DOUBLE_DIGITS * d),
    decreases doublings(n, d),
{
    if n < DOUBLE_DIGITS * d {
        lemma_doubled(2 * n, d);
        let u = doublings(2 * n, d);
        assert(power(2, 1 + u) == 2 * power(2, u));
        assert((2 * n) * power(2, u) == n * (2 * power(2, u))) by (nonlinear_arith);
    } else {
        assert(n * 1 == n);
    }
}

proof fn lemma_halved(n: nat, d: nat)
    requires
        d > 0,
        DOUBLE_DIGITS * d <= n,
    ensures
        d * power(2, halvings(n, d)) > 0,
        DOUBLE_DIGITS * (d * power(2, halvings(n, d))) <= n < 2 * (DOUBLE_DIGITS * (d * power(
            2,
            halvings(n, d),
        ))),
    decreases halvings(n, d),
{
    if 2 * (DOUBLE_DIGITS * d) <= n {
        lemma_halved(n, 2 * d);
        let w = halvings(n, 2 * d);
        assert(power(2, 1 + w) == 2 * power(2, w));
        assert((2 * d) * power(2, w) == d * (2 * power(2, w))) by (nonlinear_arith);
    } else {
        assert(d * 1 == d);
    }
}

proof fn lemma_positions(m: nat, n: nat, d: nat)
    requires
        0 < m <= n,
        d > 0,
    ensures
        doublings(n, d) <= doublings(m, d),
        halvings(m, d) <= halvings(n, d),
    decreases doublings(n, d), halvings(m, d),
{
    if n < DOUBLE_DIGITS * d {
        lemma_positions(2 * m, 2 * n, d);
    } else if 2 * (DOUBLE_DIGITS * d) <= m {
        lemma_positions(m, n, 2 * d);
    }
}

/// A greater number has no smaller double.
pub(crate) proof fn lemma_nearest_grows(m: nat, n: nat, d: nat, e: int)
    requires
        m <= n,
        d > 0,
    ensures
        !nearest(n, d, e).below(nearest(m, d, e)),
        nearest(m, d, e).wf(),
        nearest(n, d, e).wf(),
{
    reveal(nearest);
    if n > 0 {
        lemma_fits(n, d);
    }
    if m > 0 {
        lemma_fits(m, d);
        lemma_positions(m, n, d);
        let (u, w) = (doublings(m, d), halvings(m, d));
        let (v, x) = (doublings(n, d), halvings(n, d));
        if w - u == x - v {
            assert(u == v && w == x);
            assert(m * power(2, u) <= n * power(2, u)) by (nonlinear_arith)
                requires
                    m <= n,
            ;
            lemma_half_even_grows(m * power(2, u), n * power(2, u), d * power(2, w));
        }
    }
}

/// The double of nothing is zero.
pub(crate) proof fn lemma_nearest_zero(d: nat, e: int)
    ensures
        nearest(0, d, e) == (Held { digits: 0, exp: 0 }),
{
    reveal(nearest);
}

/// A greater number over the same is no smaller.
pub(crate) proof fn lemma_over_grows(x: Held, y: Held, z: Held)
    requires
        x.wf(),
        y.wf(),
        z.wf(),
        z.digits > 0,
        !y.below(x),
    ensures
        !y.over(z).below(x.over(z)),
        x.over(z).wf(),
        y.over(z).wf(),
{
    lemma_nearest_zero(z.digits, x.exp - z.exp);
    lemma_nearest_grows(x.digits, x.digits, z.digits, x.exp - z.exp);
    lemma_nearest_grows(y.digits, y.digits, z.digits, y.exp - z.exp);
    if x.digits > 0 {
        if x.exp == y.exp {
            lemma_nearest_grows(x.digits, y.digits, z.digits, x.exp - z.exp);
        } else {
            let k = (y.exp - x.exp) as nat;
            lemma_nearest_shift_by(y.digits, z.digits, x.exp - z.exp, k);
            lemma_raised(x.digits, y.digits, k);
            lemma_nearest_grows(x.digits, y.digits * power(2, k), z.digits, x.exp - z.exp);
        }
    }
}

/// The same over a greater number is no greater.
pub(crate) proof fn lemma_over_falls(x: Held, y: Held, z: Held)
    requires
        x.wf(),
        y.wf(),
        z.wf(),
        y.digits > 0,
        !z.below(y),
    ensures
        !x.over(y).below(x.over(z)),
        x.over(y).wf(),
        x.over(z).wf(),
{
    let n = x.digits;
    let e = x.exp - z.exp;
    lemma_nearest_zero(y.digits, x.exp - y.exp);
    lemma_nearest_zero(z.digits, e);
    lemma_nearest_wf(n, y.digits, x.exp - y.exp);
    lemma_nearest_wf(n, z.digits, e);
    if n > 0 {
        let k = (z.exp - y.exp) as nat;
        let p = power(2, k);
        lemma_power_positive(2, k);
        if k > 0 {
            lemma_raised(y.digits, z.digits, k);
        } else {
            assert(z.digits * 1 == z.digits);
        }
        lemma_nearest_shift_by(n, y.digits, e, k);
        lemma_nearest_scale(n * p, y.digits, e, z.digits);
        lemma_nearest_scale(n, z.digits, e, y.digits);
        let (a, b) = (n * y.digits, (n * p) * z.digits);
        assert(a <= b) by (nonlinear_arith)
            requires
                a == n * y.digits,
                b == (n * p) * z.digits,
                y.digits <= z.digits * p,
        ;
        assert(y.digits * z.digits > 0) by (nonlinear_arith)
            requires
                y.digits > 0,
                z.digits > 0,
        ;
        assert(z.digits * y.digits == y.digits * z.digits) by (nonlinear_arith);
        lemma_nearest_grows(a, b, y.digits * z.digits, e);
    }
}

/// What is left is used up no later at a greater rate, and no later where less is left.
pub(crate) proof fn lemma_eta_falls(left: Held, less: Held, per_hr: int, more: int)
    requires
        left.wf(),
        less.wf(),
        !left.below(less),
        0 < per_hr <= more,
    ensures
        held_eta(left, per_hr).wf(),
        held_eta(less, more).wf(),
        !held_eta(left, per_hr).below(held_eta(less, more)),
{
    let (r, s) = (held_micros(per_hr as nat), held_micros(more as nat));
    lemma_nearest_wf(per_hr as nat, 1_000_000, 0);
    lemma_nearest_wf(more as nat, 1_000_000, 0);
    lemma_nearest_grows(per_hr as nat, more as nat, 1_000_000, 0);
    lemma_over_falls(left, r, s);
    lemma_over_grows(less, left, s);
    let (x, y, z) = (left.over(r), left.over(s), less.over(s));
    lemma_times_grows(y, x, held_whole(3_600));
    lemma_times_grows(z, y, held_whole(3_600));
}

/// A gap grows with its upper end and shrinks with its lower one.
pub(crate) proof fn lemma_gap_grows(a: int, b: int, c: int, d: int)
    requires
        i64::MIN <= a <= b <= i64::MAX,
        i64::MIN <= d <= c <= i64::MAX,
    ensures
        held_gap(a, c).wf(),
        held_gap(b, d).wf(),
        !held_gap(b, d).below(held_gap(a, c)),
{
    lemma_steps_grow(a, b);
    lemma_steps_grow(d, c);
    let m = (if steps(a) > steps(c) {
        steps(a) - steps(c)
    } else {
        0
    }) as nat;
    let n = (if steps(b) > steps(d) {
        steps(b) - steps(d)
    } else {
        0
    }) as nat;
    lemma_nearest_wf(m, 1, -72);
    lemma_nearest_wf(n, 1, -72);
    lemma_nearest_grows(m, n, 1, -72);
}

/// At twice the rate what is left is used up in half the time, to the last digit.
pub(crate) proof fn lemma_eta_halves(left: Held, per_hr: int)
    requires
        left.wf(),
        left.digits > 0,
        per_hr > 0,
    ensures
        held_eta(left, 2 * per_hr).digits == held_eta(left, per_hr).digits,
        held_eta(left, 2 * per_hr).exp == held_eta(left, per_hr).exp - 1,
{
    reveal(nearest);
    let r = held_micros(per_hr as nat);
    lemma_nearest_shift(per_hr as nat, 1_000_000, 0);
    lemma_nearest_wf(per_hr as nat, 1_000_000, 0);
    let s = held_micros((2 * per_hr) as nat);
    assert(s.digits == r.digits && s.exp == r.exp + 1);
    let (x, y) = (left.over(r), left.over(s));
    lemma_nearest_wf(left.digits, r.digits, left.exp - r.exp);
    assert(y.digits == x.digits && y.exp == x.exp - 1);
    let h = held_whole(3_600);
    lemma_nearest_wf(3_600, 1, 0);
    let n = x.digits * h.digits;
    assert(n > 0) by (nonlinear_arith)
        requires
            n == x.digits * h.digits,
            x.digits > 0,
            h.digits > 0,
    ;
}

/// A greater number times the same is no smaller.
pub(crate) proof fn lemma_times_grows(x: Held, y: Held, z: Held)
    requires
        x.wf(),
        y.wf(),
        !y.below(x),
    ensures
        !y.times(z).below(x.times(z)),
        x.times(z).wf(),
        y.times(z).wf(),
{
    lemma_nearest_zero(1, x.exp + z.exp);
    let (m, n) = (x.digits * z.digits, y.digits * z.digits);
    lemma_nearest_grows(m, m, 1, x.exp + z.exp);
    lemma_nearest_grows(n, n, 1, y.exp + z.exp);
    if x.digits == 0 {
        assert(m == 0) by (nonlinear_arith)
            requires
                m == x.digits * z.digits,
                x.digits == 0,
        ;
    } else if x.exp == y.exp {
        assert(m <= n) by (nonlinear_arith)
            requires
                m == x.digits * z.digits,
                n == y.digits * z.digits,
                x.digits <= y.digits,
        ;
        lemma_nearest_grows(m, n, 1, x.exp + z.exp);
    } else {
        let k = (y.exp - x.exp) as nat;
        lemma_nearest_shift_by(n, 1, x.exp + z.exp, k);
        lemma_raised(x.digits, y.digits, k);
        let p = power(2, k);
        assert(m <= n * p) by (nonlinear_arith)
            requires
                m == x.digits * z.digits,
                n == y.digits * z.digits,
                x.digits <= y.digits * p,
        ;
        lemma_nearest_grows(m, n * p, 1, x.exp + z.exp);
    }
}

proof fn lemma_raised(a: nat, b: nat, k: nat)
    requires
        a < 2 * DOUBLE_DIGITS,
        b >= DOUBLE_DIGITS,
        k > 0,
    ensures
        a <= b * power(2, k),
{
    lemma_power_grows(2, 1, k);
    assert(power(2, 1) == 2) by {
        reveal_with_fuel(power, 2);
    }
    let p = power(2, k);
    assert(a <= b * p) by (nonlinear_arith)
        requires
            a < 2 * 4_503_599_627_370_496,
            b >= 4_503_599_627_370_496,
            p >= 2,
    ;
}

/// What a number rounds to, whether it has places behind the point or none.
proof fn lemma_rounded(h: nat, e: int)
    ensures
        e >= 0 ==> (Held { digits: h, exp: e }).rounded() == h * power(2, e as nat),
        e < 0 ==> power(2, (-e) as nat) > 0 && (Held { digits: h, exp: e }).rounded() == (2 * h
            + power(2, (-e) as nat)) as int / (2 * power(2, (-e) as nat)) as int,
{
    assert(h * 1 == h);
    if e >= 0 {
        let n = (h * power(2, e as nat)) as int;
        assert(n >= 0 && (2 * n + 1) / 2 == n);
    } else {
        lemma_power_positive(2, (-e) as nat);
    }
}

proof fn lemma_rounded_shift(h: nat, e: int)
    ensures
        (Held { digits: 2 * h, exp: e }).rounded() == (Held { digits: h, exp: e + 1 }).rounded(),
{
    lemma_rounded(2 * h, e);
    lemma_rounded(h, e + 1);
    if e >= 0 {
        let p = power(2, e as nat);
        assert(power(2, (e + 1) as nat) == 2 * p);
        assert((2 * h) * p == h * (2 * p)) by (nonlinear_arith);
    } else if e == -1 {
        reveal_with_fuel(power, 2);
        assert(h * 1 == h);
        assert((2 * (2 * h) + 2) as int / 4 == h);
    } else {
        let p = power(2, (-(e + 1)) as nat);
        assert(power(2, (-e) as nat) == 2 * p);
        let (n, d) = ((2 * h + p) as int, (2 * p) as int);
        vstd::arithmetic::div_mod::lemma_fundamental_div_mod(n, d);
        let (q, r) = (n / d, n % d);
        assert(2 * n == q * (2 * d) + 2 * r) by (nonlinear_arith)
            requires
                n == d * q + r,
        ;
        vstd::arithmetic::div_mod::lemma_fundamental_div_mod_converse(2 * n, 2 * d, q, 2 * r);
    }
}

proof fn lemma_rounded_shift_by(h: nat, e: int, k: nat)
    ensures
        (Held { digits: h * power(2, k), exp: e }).rounded() == (Held {
            digits: h,
            exp: e + k,
        }).rounded(),
    decreases k,
{
    if k > 0 {
        let p = power(2, (k - 1) as nat);
        lemma_rounded_shift_by(h, e + 1, (k - 1) as nat);
        lemma_rounded_shift(h * p, e);
        assert(2 * (h * p) == h * (2 * p)) by (nonlinear_arith);
    } else {
        assert(h * 1 == h);
    }
}

proof fn lemma_rounded_grows_at(a: nat, b: nat, e: int)
    requires
        a <= b,
    ensures
        (Held { digits: a, exp: e }).rounded() <= (Held { digits: b, exp: e }).rounded(),
{
    lemma_rounded(a, e);
    lemma_rounded(b, e);
    if e >= 0 {
        let p = power(2, e as nat);
        assert(a * p <= b * p) by (nonlinear_arith)
            requires
                a <= b,
        ;
    } else {
        let p = power(2, (-e) as nat);
        vstd::arithmetic::div_mod::lemma_div_is_ordered(
            (2 * a + p) as int,
            (2 * b + p) as int,
            (2 * p) as int,
        );
    }
}

/// A greater number rounds to no smaller a whole one.
pub(crate) proof fn lemma_rounded_grows(x: Held, y: Held)
    requires
        x.wf(),
        y.wf(),
        !y.below(x),
    ensures
        x.rounded() <= y.rounded(),
{
    if x.digits == 0 {
        lemma_rounded_grows_at(0, y.digits, y.exp);
        lemma_rounded_zero(0);
        lemma_rounded_zero(y.exp);
    } else if x.exp == y.exp {
        lemma_rounded_grows_at(x.digits, y.digits, x.exp);
    } else {
        let k = (y.exp - x.exp) as nat;
        lemma_rounded_shift_by(y.digits, x.exp, k);
        lemma_raised(x.digits, y.digits, k);
        lemma_rounded_grows_at(x.digits, y.digits * power(2, k), x.exp);
    }
}

proof fn lemma_rounded_zero(e: int)
    ensures
        (Held { digits: 0, exp: e }).rounded() == 0,
{
    lemma_rounded(0, e);
    if e >= 0 {
        let p = power(2, e as nat);
        assert(0 * p == 0) by (nonlinear_arith);
    } else {
        let p = power(2, (-e) as nat) as int;
        vstd::arithmetic::div_mod::lemma_basic_div(p, 2 * p);
    }
}

/// The greater of two numbers that are no smaller is no smaller.
pub(crate) proof fn lemma_max_grows(a: Held, b: Held, c: Held, d: Held)
    requires
        !b.below(a),
        !d.below(c),
    ensures
        !b.max(d).below(a.max(c)),
{
}

/// The double of a quotient is one that a double holds.
pub(crate) proof fn lemma_nearest_wf(n: nat, d: nat, e: int)
    requires
        d > 0,
    ensures
        nearest(n, d, e).wf(),
        n > 0 ==> nearest(n, d, e).digits > 0,
{
    reveal(nearest);
    lemma_nearest_grows(n, n, d, e);
    if n > 0 {
        lemma_fits(n, d);
    }
}

/// A double is its own nearest.
pub(crate) proof fn lemma_nearest_held(h: nat, e: int)
    requires
        DOUBLE_DIGITS <= h < 2 * DOUBLE_DIGITS,
    ensures
        nearest(h, 1, e) == (Held { digits: h, exp: e }),
{
    reveal(nearest);
    assert(doublings(h, 1) == 0 && halvings(h, 1) == 0);
    assert(power(2, 0) == 1);
    assert(h * 1 == h);
    assert(half_even(h, 1) == h);
}

/// What a double holds exactly: one and eight.
pub(crate) proof fn lemma_small_wholes()
    ensures
        held_whole(1) == (Held { digits: DOUBLE_DIGITS as nat, exp: -52 }),
        held_whole(8) == (Held { digits: DOUBLE_DIGITS as nat, exp: -49 }),
        power(2, 52) == DOUBLE_DIGITS,
{
    assert(power(2, 52) == 0x10_0000_0000_0000) by {
        reveal_with_fuel(power, 53);
    }
    assert(power(2, 49) == 0x2_0000_0000_0000) by {
        reveal_with_fuel(power, 50);
    }
    let top = DOUBLE_DIGITS as nat;
    lemma_nearest_shift_by(1, 1, -52, 52);
    lemma_nearest_shift_by(8, 1, -49, 49);
    lemma_nearest_held(top, -52);
    lemma_nearest_held(top, -49);
}

/// A whole number below 2^53 is held exactly.
pub(crate) proof fn lemma_whole_held(w: nat)
    requires
        0 < w < 2 * DOUBLE_DIGITS,
    ensures
        held_whole(w) == (Held {
            digits: w * power(2, doublings(w, 1)),
            exp: -(doublings(w, 1) as int),
        }),
        held_whole(w).wf(),
{
    reveal(nearest);
    lemma_fits(w, 1);
    let u = doublings(w, 1);
    let h = w * power(2, u);
    assert(halvings(w, 1) == 0);
    assert(1 * power(2, 0) == 1);
    assert(half_even(h, 1) == h);
}

/// All of a number of cells, in eighths: a hundred percent is one, and one times a number is the
/// number.
pub(crate) proof fn lemma_all_of(w: nat)
    requires
        w < 2 * DOUBLE_DIGITS,
    ensures
        held_micros(100_000_000).over(held_whole(100)).times(held_whole(w)).rounded() == w,
        held_micros(100_000_000).over(held_whole(100)).times(held_whole(w)).times(
            held_whole(8),
        ).rounded() == 8 * w,
{
    lemma_nearest_zero(1, 0);
    lemma_nearest_zero(1, -52);
    lemma_nearest_zero(1, -49);
    let x = held_whole(100);
    lemma_nearest_scale(100, 1, 0, 1_000_000);
    lemma_nearest_wf(100, 1, 0);
    assert(1 * x.digits == x.digits);
    lemma_nearest_scale(1, 1, 0, x.digits);
    let one = held_whole(1);
    assert(x.over(x) == one);
    lemma_small_wholes();
    let top = DOUBLE_DIGITS as nat;
    let y = held_whole(w);
    if w == 0 {
        assert(top * 0 == 0 && 0 * top == 0);
        lemma_rounded_zero(0);
    } else {
        lemma_whole_held(w);
        let (h, u) = (y.digits, doublings(w, 1));
        assert(top * h == h * top) by (nonlinear_arith);
        lemma_nearest_shift_by(h, 1, y.exp - 52, 52);
        lemma_nearest_held(h, y.exp);
        assert(one.times(y) == y);
        lemma_nearest_shift_by(h, 1, y.exp - 49, 52);
        lemma_nearest_held(h, y.exp + 3);
        let z = y.times(held_whole(8));
        assert(z == (Held { digits: h, exp: 3 - u }));
        lemma_rounded_shift_by(w, -(u as int), u);
        lemma_rounded_shift_by(w, 3 - u, u);
        assert(y.rounded() == (Held { digits: w, exp: 0 }).rounded());
        assert(z.rounded() == (Held { digits: w, exp: 3 }).rounded());
        lemma_rounded(w, 0);
        lemma_rounded(w, 3);
        assert(power(2, 0) == 1 && power(2, 3) == 8) by {
            reveal_with_fuel(power, 4);
        }
        assert(w * 1 == w && w * 8 == 8 * w);
    }
}

/// Nothing of a number of cells is nothing.
pub(crate) proof fn lemma_none_of(w: nat)
    ensures
        held_micros(0).over(held_whole(100)).times(held_whole(w)).rounded() == 0,
        held_micros(0).over(held_whole(100)).times(held_whole(w)).times(held_whole(8)).rounded()
            == 0,
{
    let hundred = held_whole(100);
    lemma_nearest_zero(1_000_000, 0);
    lemma_nearest_zero(hundred.digits, -hundred.exp);
    lemma_nearest_zero(1, held_whole(w).exp);
    lemma_nearest_zero(1, held_whole(8).exp);
    assert(0 * held_whole(w).digits == 0);
    assert(0 * held_whole(8).digits == 0);
    lemma_rounded_zero(0);
}

pub(crate) proof fn lemma_rounded_is_natural(x: Held)
    ensures
        x.rounded() >= 0,
{
    lemma_rounded_zero(x.exp);
    lemma_rounded_grows_at(0, x.digits, x.exp);
}

/// A double of what is small beside 2^52 stands that many places further down.
proof fn lemma_stands_down(n: nat, d: nat, e: int, k: nat)
    requires
        n > 0,
        k > 0,
        n * power(2, (k - 1) as nat) < DOUBLE_DIGITS * d,
    ensures
        nearest(n, d, e).exp <= e - k + 1,
{
    reveal(nearest);
    if d == 0 {
        assert(n * power(2, (k - 1) as nat) >= 0) by (nonlinear_arith);
    } else {
        lemma_fits(n, d);
        let (u, w) = (doublings(n, d), halvings(n, d));
        if u < k {
            lemma_power_grows(2, u, (k - 1) as nat);
            let (p, q) = (power(2, u), power(2, (k - 1) as nat));
            assert(n * p <= n * q) by (nonlinear_arith)
                requires
                    p <= q,
            ;
            let c = power(2, w);
            lemma_power_positive(2, w);
            let top = DOUBLE_DIGITS * d;
            assert(DOUBLE_DIGITS * (d * c) >= top) by (nonlinear_arith)
                requires
                    top == DOUBLE_DIGITS * d,
                    c > 0,
            ;
        }
    }
}

/// The double of a product of two stands where theirs put it.
proof fn lemma_product_stands(x: Held, y: Held)
    requires
        x.wf(),
        y.wf(),
    ensures
        x.times(y).digits > 0 ==> x.times(y).exp <= x.exp + y.exp + 54,
{
    reveal(nearest);
    let n = x.digits * y.digits;
    if n > 0 {
        lemma_fits(n, 1);
        let w = halvings(n, 1);
        assert(n < 0x20_0000_0000_0000 * 0x20_0000_0000_0000) by (nonlinear_arith)
            requires
                n == x.digits * y.digits,
                x.digits < 0x20_0000_0000_0000,
                y.digits < 0x20_0000_0000_0000,
        ;
        if w > 53 {
            lemma_power_grows(2, 54, w);
            lemma_power_53();
            assert(power(2, 54) == 2 * power(2, 53));
            assert(n * 1 == n);
            assert(doublings(n, 1) == 0);
        }
    }
}

/// How far down the double of an amount stands.
proof fn lemma_micros_stand(v: nat)
    requires
        0 < v <= 0x8000_0000_0010_0000,
    ensures
        -72 <= held_micros(v).exp <= -8,
{
    reveal(nearest);
    assert(power(2, 8) == 256) by {
        reveal_with_fuel(power, 9);
    }
    assert(v * power(2, 8) < DOUBLE_DIGITS * 1_000_000) by (nonlinear_arith)
        requires
            v <= 0x8000_0000_0010_0000,
            power(2, 8) == 256,
            DOUBLE_DIGITS == 0x10_0000_0000_0000,
    ;
    lemma_stands_down(v, 1_000_000, 0, 9);
    lemma_fits(v, 1_000_000);
    let u = doublings(v, 1_000_000);
    assert(halvings(v, 1_000_000) == 0);
    assert(power(2, 0) == 1);
    let p = power(2, u);
    assert(v * p >= p) by (nonlinear_arith)
        requires
            v >= 1,
    ;
    if u > 72 {
        lemma_power_grows(2, 73, u);
        assert(power(2, 73) == 0x200_0000_0000_0000_0000) by {
            lemma_power_add(2, 36, 37);
            assert(power(2, 36) == 0x10_0000_0000) by {
                reveal_with_fuel(power, 37);
            }
            assert(power(2, 37) == 0x20_0000_0000) by {
                reveal_with_fuel(power, 38);
            }
            assert(0x10_0000_0000int * 0x20_0000_0000 == 0x200_0000_0000_0000_0000)
                by (nonlinear_arith);
        }
    }
}

/// The double of a quotient of two stands where theirs put it.
proof fn lemma_quotient_stands(x: Held, y: Held)
    requires
        x.wf(),
        y.wf(),
        x.digits > 0,
        y.digits > 0,
    ensures
        x.over(y).exp <= x.exp - y.exp - 50,
{
    let p = power(2, 50);
    assert(p == 0x4_0000_0000_0000) by {
        reveal_with_fuel(power, 51);
    }
    assert(x.digits * p < DOUBLE_DIGITS * y.digits) by (nonlinear_arith)
        requires
            x.digits < 0x20_0000_0000_0000,
            y.digits >= 0x10_0000_0000_0000,
            p == 0x4_0000_0000_0000,
            DOUBLE_DIGITS == 0x10_0000_0000_0000,
    ;
    lemma_stands_down(x.digits, y.digits, x.exp - y.exp, 51);
}

proof fn lemma_hundred_stands()
    ensures
        held_whole(100).exp <= -45,
        held_whole(100).wf(),
{
    assert(power(2, 45) == 0x2000_0000_0000) by {
        reveal_with_fuel(power, 46);
    }
    lemma_stands_down(100, 1, 0, 46);
    lemma_nearest_wf(100, 1, 0);
}

/// How far down the double of a percentage stands.
proof fn lemma_pct_stands(part: nat, whole: nat)
    requires
        part <= i64::MAX,
        0 < whole <= i64::MAX,
    ensures
        held_pct(part, whole).exp <= 50,
{
    lemma_nearest_zero(1_000_000, 0);
    lemma_nearest_zero(held_micros(whole).digits, -held_micros(whole).exp);
    lemma_nearest_zero(1, held_whole(100).exp);
    let (x, y) = (held_micros(part), held_micros(whole));
    let hundred = held_whole(100);
    let q = x.over(y);
    lemma_hundred_stands();
    assert(x.wf() && y.wf() && y.digits > 0 && (part > 0 ==> x.digits > 0)) by {
        lemma_nearest_wf(part, 1_000_000, 0);
        lemma_nearest_wf(whole, 1_000_000, 0);
    }
    assert(q.wf()) by {
        lemma_nearest_wf(x.digits, y.digits, x.exp - y.exp);
    }
    if part > 0 {
        lemma_micros_stand(part);
        lemma_micros_stand(whole);
        lemma_quotient_stands(x, y);
        lemma_product_stands(q, hundred);
        assert(q.times(hundred).wf()) by {
            lemma_nearest_wf(q.digits * hundred.digits, 1, q.exp + hundred.exp);
        }
    } else {
        assert(q.digits == 0);
        assert(0 * hundred.digits == 0) by (nonlinear_arith);
    }
}

/// Appends a double in decimal notation with `d` places.
pub fn push_held(s: &mut String, x: Double, d: u8)
    requires
        x@.wf(),
        x.exp <= 50,
        d <= 6,
    ensures
        final(s)@ == old(s)@ + held_text(x@, d as nat),
{
    let ghost before = s@;
    let h: u128 = x.to_places(d);
    push_dec(s, h / ten_to(d));
    if d > 0 {
        s.push('.');
        push_places(s, h, d);
    }
    assert(s@ =~= before + held_text(x@, d as nat));
}

/// The percentage that an amount is of another.
pub fn pct_of(part: Micros, whole: Micros) -> (r: Double)
    requires
        part >= 0,
        whole > 0,
    ensures
        r@ == held_pct(part as nat, whole as nat),
        r.wf(),
        -2_000 <= r.exp <= 50,
{
    proof {
        lemma_pct_stands(part as nat, whole as nat);
    }
    Double::of_micros(part as u64).over(Double::of_micros(whole as u64)).times(
        Double::of_whole(100),
    )
}

proof fn lemma_whole_is_natural(x: Held)
    ensures
        x.whole() >= 0,
{
    let (n, d) = x.fraction(1);
    assert(d > 0) by {
        if x.exp < 0 {
            lemma_power_positive(2, (-x.exp) as nat);
        }
    }
    vstd::arithmetic::div_mod::lemma_div_pos_is_pos(n as int, d as int);
}

pub(crate) proof fn lemma_cut_is_natural(x: Held)
    ensures
        x.cut() >= 0,
{
    let (n, d) = x.fraction(UNIT as nat);
    assert(d > 0) by {
        if x.exp < 0 {
            lemma_power_positive(2, (-x.exp) as nat);
        }
    }
    vstd::arithmetic::div_mod::lemma_div_pos_is_pos(n as int, d as int);
}

/// An amount's double in parts of 2^-72.
fn steps_of(v: Micros) -> (r: i128)
    ensures
        r == steps(v as int),
        -0x20_0000_0000_0000_0000_0000_0000_0000 <= r <= 0x20_0000_0000_0000_0000_0000_0000_0000,
{
    proof {
        lemma_nearest_zero(1_000_000, 0);
    }
    if v == 0 {
        assert(0 * power(2, 72) == 0) by (nonlinear_arith);
        return 0;
    }
    let m: u128 = magnitude_value(v as i128);
    let x = Double::of_micros(m as u64);
    proof {
        lemma_micros_stand(m as nat);
        lemma_power_grows(2, (x.exp + 72) as nat, 64);
        assert(power(2, 64) == 0x1_0000_0000_0000_0000) by {
            lemma_power_add(2, 32, 32);
            assert(power(2, 32) == 0x1_0000_0000) by {
                reveal_with_fuel(power, 33);
            }
        }
    }
    let scale: u128 = two_to(x.exp + 72);
    assert(x.digits * scale <= 0x20_0000_0000_0000 * 0x1_0000_0000_0000_0000) by (nonlinear_arith)
        requires
            0 <= x.digits <= 0x20_0000_0000_0000,
            0 <= scale <= 0x1_0000_0000_0000_0000,
    ;
    let n: i128 = (x.digits as u128 * scale) as i128;
    if v < 0 {
        -n
    } else {
        n
    }
}

/// How far `a` lies above `b`; zero where it does not.
pub fn gap_of(a: Micros, b: Micros) -> (r: Double)
    ensures
        r@ == held_gap(a as int, b as int),
        r.wf(),
        -300 <= r.exp <= 300,
{
    let (m, n) = (steps_of(a), steps_of(b));
    let over: u128 = if m > n {
        (m - n) as u128
    } else {
        0
    };
    nearest_double(over, 1, -72)
}

/// The whole part of how far `a` lies above `b`, or below it.
pub fn whole_gap_of(a: Micros, b: Micros) -> (r: i64)
    ensures
        r == whole_gap(a as int, b as int),
{
    if a >= b {
        gap_of(a, b).whole()
    } else {
        proof {
            lemma_whole_is_natural(held_gap(b as int, a as int));
        }
        -gap_of(b, a).whole()
    }
}

/// Seconds until `left` is used up at so many millionths an hour.
pub fn eta_at(left: Double, per_hr: Micros) -> (r: Double)
    requires
        left.wf(),
        -300 <= left.exp <= 300,
        per_hr > 0,
    ensures
        r@ == held_eta(left@, per_hr as int),
        r.wf(),
{
    left.over(Double::of_micros(per_hr as u64)).times(Double::of_whole(3_600))
}

pub(crate) proof fn lemma_eta_wf(left: Held, per_hr: int)
    ensures
        held_eta(left, per_hr).wf(),
{
    let q = left.over(held_micros(per_hr as nat));
    let hour = held_whole(3_600);
    lemma_nearest_wf(q.digits * hour.digits, 1, q.exp + hour.exp);
}

/// A greater amount is no fewer steps.
proof fn lemma_steps_grow(a: int, b: int)
    requires
        -0x8000_0000_0010_0000 <= a <= b <= 0x8000_0000_0010_0000,
    ensures
        steps(a) <= steps(b),
{
    lemma_steps_are_natural(a);
    lemma_steps_are_natural(b);
    if a >= 0 {
        lemma_magnitudes_grow(a as nat, b as nat);
    } else if b < 0 {
        lemma_magnitudes_grow((-b) as nat, (-a) as nat);
    }
}

/// Nothing lies above itself, nor a lesser amount above a greater.
pub(crate) proof fn lemma_no_gap(a: int, b: int)
    requires
        i64::MIN <= a <= b <= i64::MAX,
    ensures
        held_gap(a, b).digits == 0,
        held_gap(a, b) == (Held { digits: 0, exp: 0 }),
{
    lemma_steps_grow(a, b);
    lemma_nearest_zero(1, -72);
}

proof fn lemma_steps_are_natural(v: int)
    ensures
        v >= 0 ==> steps(v) >= 0,
        v < 0 ==> steps(v) <= 0,
{
    let x = held_micros(magnitude_of(v));
    let p = power(2, (x.exp + 72) as nat);
    assert(x.digits * p >= 0) by (nonlinear_arith);
}

proof fn lemma_magnitudes_grow(a: nat, b: nat)
    requires
        a <= b <= 0x8000_0000_0010_0000,
    ensures
        steps(a as int) <= steps(b as int),
{
    lemma_nearest_zero(1_000_000, 0);
    let (x, y) = (held_micros(a), held_micros(b));
    lemma_nearest_grows(a, b, 1_000_000, 0);
    if a == 0 {
        assert(0 * power(2, 72) == 0) by (nonlinear_arith);
        lemma_steps_are_natural(b as int);
    } else {
        lemma_micros_stand(a);
        lemma_micros_stand(b);
        lemma_nearest_wf(a, 1_000_000, 0);
        lemma_nearest_wf(b, 1_000_000, 0);
        let p = power(2, (x.exp + 72) as nat);
        if x.exp == y.exp {
            assert(x.digits * p <= y.digits * p) by (nonlinear_arith)
                requires
                    x.digits <= y.digits,
            ;
        } else {
            let k = (y.exp - x.exp) as nat;
            let q = power(2, k);
            lemma_power_add(2, k, (x.exp + 72) as nat);
            lemma_raised(x.digits, y.digits, k);
            assert(x.digits * p <= y.digits * (q * p)) by (nonlinear_arith)
                requires
                    x.digits <= y.digits * q,
            ;
        }
    }
}

/// A whole number that a double holds doubles at most 52 times.
proof fn lemma_whole_doublings(w: nat)
    requires
        0 < w < 2 * DOUBLE_DIGITS,
    ensures
        doublings(w, 1) <= 52,
{
    let u = doublings(w, 1);
    let p = power(2, u);
    lemma_fits(w, 1);
    assert(halvings(w, 1) == 0);
    assert(1 * power(2, 0) == 1);
    assert(p <= w * p) by (nonlinear_arith)
        requires
            w >= 1,
    ;
    if u > 52 {
        lemma_power_grows(2, 53, u);
        lemma_power_53();
    }
}

proof fn lemma_power_53()
    ensures
        power(2, 53) == 0x20_0000_0000_0000,
{
    reveal_with_fuel(power, 54);
}

/// A whole number of seconds is as many whole steps.
pub(crate) proof fn lemma_whole_steps(n: int)
    requires
        -10_000_000_000_000 <= n <= 10_000_000_000_000,
    ensures
        steps(n * UNIT) == n * power(2, 72),
{
    let w = magnitude_of(n);
    let all = power(2, 72);
    assert(magnitude_of(n * UNIT) == w * 1_000_000);
    lemma_nearest_scale(w, 1, 0, 1_000_000);
    assert(held_micros(w * 1_000_000) == held_whole(w));
    if w == 0 {
        lemma_nearest_zero(1, 0);
        assert(0 * all == 0) by (nonlinear_arith);
    } else {
        lemma_whole_held(w);
        lemma_whole_doublings(w);
        let u = doublings(w, 1);
        let p = power(2, u);
        lemma_power_add(2, u, (72 - u) as nat);
        let q = power(2, (72 - u) as nat);
        assert((w * p) * q == w * (p * q)) by (nonlinear_arith);
        assert((-(w as int)) * all == -(w * all)) by (nonlinear_arith);
    }
}

/// What lies below a whole number of seconds has a smaller whole part.
proof fn lemma_below_whole(e: Held, j: nat)
    requires
        e.wf(),
        j < 2 * DOUBLE_DIGITS,
        e.below(held_whole(j)),
    ensures
        e.whole() < j,
{
    lemma_whole_held_or_none(j);
    lemma_nearest_zero(1, 0);
    assert(j > 0);
    let x = held_whole(j);
    let u = doublings(j, 1);
    assert(e.digits * 1 == e.digits);
    if e.digits == 0 {
        reveal_with_fuel(power, 1);
        assert(0 * 1 * 1 == 0);
    } else {
        assert(e.exp <= -u);
        let k = (-e.exp) as nat;
        let d = power(2, k);
        lemma_power_positive(2, k);
        if e.exp == -u {
            assert(e.digits < j * d);
        } else {
            let m = (k - u) as nat;
            lemma_raised(e.digits, x.digits, m);
            lemma_power_add(2, u, m);
            let (p, q) = (power(2, u), power(2, m));
            assert((j * p) * q == j * (p * q)) by (nonlinear_arith);
            assert(e.digits <= j * d);
            lemma_power_grows(2, 1, m);
            assert(power(2, 1) == 2) by {
                reveal_with_fuel(power, 2);
            }
            assert(e.digits < x.digits * q) by (nonlinear_arith)
                requires
                    e.digits < 2 * 4_503_599_627_370_496,
                    x.digits >= 4_503_599_627_370_496,
                    q >= 2,
            ;
        }
        assert(e.digits < j * d);
        vstd::arithmetic::div_mod::lemma_fundamental_div_mod(e.digits as int, d as int);
        let r = e.digits as int / d as int;
        assert(r < j) by (nonlinear_arith)
            requires
                e.digits == d * r + e.digits as int % d as int,
                0 <= e.digits as int % d as int,
                e.digits < j * d,
                d > 0,
        ;
        if e.exp == 0 {
            assert(d == 1);
            assert(e.digits * 1 * 1 == e.digits);
        }
    }
}

proof fn lemma_whole_held_or_none(j: nat)
    requires
        j < 2 * DOUBLE_DIGITS,
    ensures
        j > 0 ==> held_whole(j) == (Held {
            digits: j * power(2, doublings(j, 1)),
            exp: -(doublings(j, 1) as int),
        }) && held_whole(j).wf() && held_whole(j).digits > 0,
{
    if j > 0 {
        lemma_whole_held(j);
        lemma_nearest_wf(j, 1, 0);
    }
}

/// Seconds whose double lies below that of the time from `now` to a whole second are, in whole
/// seconds, over before it.
pub(crate) proof fn lemma_ends_before(e: Held, at: int, now: int)
    requires
        e.wf(),
        i64::MIN <= at * UNIT <= i64::MAX,
        i64::MIN <= now <= i64::MAX,
        e.below(held_gap(at * UNIT, now)),
    ensures
        now + e.whole() * UNIT < at * UNIT,
{
    lemma_nearest_zero(1, -72);
    let k = e.whole();
    if now + k * UNIT >= at * UNIT {
        if at * UNIT <= now {
            lemma_steps_grow(at * UNIT, now);
            assert(false);
        } else {
            let j = (at * 1_000_000 - now + 999_999) / 1_000_000;
            assert((at - j) * 1_000_000 <= now);
            assert(now - 1_000_000 < (at - j) * 1_000_000);
            assert(1 <= j <= k);
            lemma_steps_grow((at - j) * UNIT, now);
            lemma_whole_steps(at);
            lemma_whole_steps(at - j);
            let all = power(2, 72);
            let s = steps(at * UNIT) - steps(now);
            assert(at * all - (at - j) * all == j * all) by (nonlinear_arith);
            assert(s <= j * all);
            if s > 0 {
                lemma_nearest_grows(s as nat, (j * all) as nat, 1, -72);
                lemma_nearest_shift_by(j as nat, 1, -72, 72);
                assert(e.below(held_whole(j as nat)));
                lemma_below_whole(e, j as nat);
            }
        }
    }
}

/// The digits of a double lie within half a step of what they stand for, and fill its places.
pub proof fn a_double_is_within_half_a_step(n: nat, d: nat)
    requires
        n > 0,
        d > 0,
    ensures
        ({
            let exact = n * power(2, doublings(n, d));
            let step = d * power(2, halvings(n, d));
            let held = nearest_digits(n, d) * step;
            &&& 2 * exact <= 2 * held + step
            &&& 2 * held <= 2 * exact + step
            &&& DOUBLE_DIGITS <= nearest_digits(n, d) <= 2 * DOUBLE_DIGITS
        }),
{
    lemma_fits(n, d);
    let exact = n * power(2, doublings(n, d));
    let step = d * power(2, halvings(n, d));
    vstd::arithmetic::div_mod::lemma_fundamental_div_mod(exact as int, step as int);
    let (q, r) = (exact / step, exact % step);
    assert(q * step == step * q && (q + 1) * step == step * q + step) by (nonlinear_arith);
}

/// Cut to whole millionths, a double rounds as it does uncut, and stands to every whole number as
/// it does.
pub proof fn a_cut_double_rounds_as_it_is(x: Held, m: nat)
    ensures
        round_div(x.cut(), UNIT as int) == x.rounded(),
        x.cut() >= m * UNIT <==> x.fraction(1).0 >= m * x.fraction(1).1,
{
    let (n, d) = (x.fraction(1).0 as int, x.fraction(1).1 as int);
    assert(d > 0) by {
        if x.exp < 0 {
            lemma_power_positive(2, (-x.exp) as nat);
        }
    }
    assert(x.fraction(UNIT as nat).0 == n * 1_000_000 && x.fraction(UNIT as nat).1 == d) by {
        assert(x.digits * 1 == x.digits);
        if x.exp >= 0 {
            let p = power(2, x.exp as nat);
            assert(x.digits * 1_000_000 * p == (x.digits * p) * 1_000_000) by (nonlinear_arith);
        }
    }
    lemma_cut_is_natural(x);
    let c = x.cut();
    let t = n * 1_000_000;
    let q = (2 * n + d) / (2 * d);
    vstd::arithmetic::div_mod::lemma_fundamental_div_mod(t, d);
    vstd::arithmetic::div_mod::lemma_fundamental_div_mod(2 * n + d, 2 * d);
    let (r, s) = (t % d, (2 * n + d) % (2 * d));
    assert((2 * q - 1) * 500_000 <= c < (2 * q + 1) * 500_000) by (nonlinear_arith)
        requires
            t == d * c + r,
            0 <= r < d,
            2 * n + d == (2 * d) * q + s,
            0 <= s < 2 * d,
            t == n * 1_000_000,
            d > 0,
    ;
    assert((2 * c + 1_000_000) / 2_000_000 == q);
    assert((c >= m * 1_000_000) == (n >= m * d)) by (nonlinear_arith)
        requires
            t == d * c + r,
            0 <= r < d,
            t == n * 1_000_000,
            d > 0,
    ;
}

} // verus!
