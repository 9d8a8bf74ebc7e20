//! Numbers in fixed point.
//!
//! Dollars, percentages, clock readings and token counts are all held as whole millionths of
//! their unit, so every sum and comparison is exact; what is divided goes through
//! [`crate::double`]. A number read from text may also be one of the three values that are not
//! finite; [`Num`] carries those, and everything that enters arithmetic or the history is finite.
//!
//! A number is read in one of two ways. Cut to whole millionths it stands to every threshold, and
//! rounds to whole units, as the number written does; percentages, moments and token counts are
//! read so. Dollars are read to the nearest millionth, which drops the noise that a counter picks
//! up as it is summed.

use vstd::prelude::*;
use vstd::slice::slice_subrange;

use crate::big::Big;
use crate::text::{chars_of, dec, dec_places, push_dec, push_places};

verus! {

/// Millionths of a unit: of a dollar, a percent, a second or a token.
pub type Micros = i64;

/// One unit, in millionths.
pub const UNIT: i64 = 1_000_000;

/// A number as a payload may carry it.
#[derive(Clone, Copy, PartialEq, Eq, Debug, Structural)]
pub enum Num {
    /// A finite number, in millionths.
    Finite(Micros),
    PosInf,
    NegInf,
    NaN,
}

impl Num {
    /// `self >= m`, where nothing compares with NaN.
    pub open spec fn at_least(self, m: int) -> bool {
        match self {
            Num::Finite(v) => v >= m,
            Num::PosInf => true,
            _ => false,
        }
    }

    /// `self > m`, where nothing compares with NaN.
    pub open spec fn above(self, m: int) -> bool {
        match self {
            Num::Finite(v) => v > m,
            Num::PosInf => true,
            _ => false,
        }
    }

    /// `self < m`, where nothing compares with NaN.
    pub open spec fn below(self, m: int) -> bool {
        match self {
            Num::Finite(v) => v < m,
            Num::NegInf => true,
            _ => false,
        }
    }

    /// The value in millionths, when there is one.
    pub open spec fn finite_value(self) -> Option<i64> {
        match self {
            Num::Finite(v) => Some(v),
            _ => None,
        }
    }

    pub fn is_at_least(self, m: i64) -> (r: bool)
        ensures
            r == self.at_least(m as int),
    {
        match self {
            Num::Finite(v) => v >= m,
            Num::PosInf => true,
            _ => false,
        }
    }

    pub fn is_above(self, m: i64) -> (r: bool)
        ensures
            r == self.above(m as int),
    {
        match self {
            Num::Finite(v) => v > m,
            Num::PosInf => true,
            _ => false,
        }
    }

    pub fn is_below(self, m: i64) -> (r: bool)
        ensures
            r == self.below(m as int),
    {
        match self {
            Num::Finite(v) => v < m,
            Num::NegInf => true,
            _ => false,
        }
    }

    pub fn finite(self) -> (r: Option<Micros>)
        ensures
            r == self.finite_value(),
    {
        match self {
            Num::Finite(v) => Some(v),
            _ => None,
        }
    }

    /// Whole units, rounded to the nearest with halves away from zero; the ends of the range
    /// for the infinities and zero for NaN.
    pub open spec fn rounded(self) -> int {
        match self {
            Num::Finite(v) => round_div(v as int, UNIT as int),
            Num::PosInf => i64::MAX as int,
            Num::NegInf => i64::MIN as int,
            Num::NaN => 0,
        }
    }

    pub fn round(self) -> (r: i64)
        ensures
            r == self.rounded(),
    {
        match self {
            Num::Finite(v) => round_quotient(v as i128, UNIT as i128) as i64,
            Num::PosInf => i64::MAX,
            Num::NegInf => i64::MIN,
            Num::NaN => 0,
        }
    }

    /// Whole units, the fraction dropped; the ends of the range for the infinities and zero
    /// for NaN.
    pub open spec fn truncated(self) -> int {
        match self {
            Num::Finite(v) => trunc_div(v as int, UNIT as int),
            Num::PosInf => i64::MAX as int,
            Num::NegInf => i64::MIN as int,
            Num::NaN => 0,
        }
    }

    pub fn trunc(self) -> (r: i64)
        ensures
            r == self.truncated(),
    {
        match self {
            Num::Finite(v) => trunc_units(v as i128) as i64,
            Num::PosInf => i64::MAX,
            Num::NegInf => i64::MIN,
            Num::NaN => 0,
        }
    }
}

/// Division with the fraction dropped.
pub open spec fn trunc_div(a: int, b: int) -> int
    recommends
        b > 0,
{
    if a >= 0 {
        a / b
    } else {
        -((-a) / b)
    }
}

/// Division rounded to the nearest integer, halves away from zero.
pub open spec fn round_div(a: int, b: int) -> int
    recommends
        b > 0,
{
    if a >= 0 {
        (2 * a + b) / (2 * b)
    } else {
        -((2 * (-a) + b) / (2 * b))
    }
}

/// Division rounded to the nearest integer, halves to the even one.
pub open spec fn half_even(a: nat, b: nat) -> nat
    recommends
        b > 0,
{
    let q = a / b;
    let r = a % b;
    if 2 * r < b || (2 * r == b && q % 2 == 0) {
        q
    } else {
        q + 1
    }
}

/// The nearest value an `i64` can hold.
pub open spec fn clamp_i64(v: int) -> int {
    if v > i64::MAX {
        i64::MAX as int
    } else if v < i64::MIN {
        i64::MIN as int
    } else {
        v
    }
}

pub fn saturate(v: i128) -> (r: i64)
    ensures
        r == clamp_i64(v as int),
{
    if v > i64::MAX as i128 {
        i64::MAX
    } else if v < i64::MIN as i128 {
        i64::MIN
    } else {
        v as i64
    }
}

proof fn lemma_round_up(a: int, b: int)
    requires
        a >= 0,
        b > 0,
    ensures
        (2 * a + b) / (2 * b) == if 2 * (a % b) >= b {
            a / b + 1
        } else {
            a / b
        },
{
    let q = a / b;
    let r = a % b;
    assert(a == b * q + r && 0 <= r < b) by (nonlinear_arith)
        requires
            q == a / b,
            r == a % b,
            b > 0,
    ;
    if 2 * r >= b {
        assert((2 * a + b) / (2 * b) == q + 1) by (nonlinear_arith)
            requires
                a == b * q + r,
                0 <= r < b,
                2 * r >= b,
        ;
    } else {
        assert((2 * a + b) / (2 * b) == q) by (nonlinear_arith)
            requires
                a == b * q + r,
                0 <= r < b,
                2 * r < b,
        ;
    }
}

/// `a / b` to the nearest integer, halves away from zero.
pub fn round_quotient(a: i128, b: i128) -> (q: i128)
    requires
        b > 0,
        a > i128::MIN,
    ensures
        q == round_div(a as int, b as int),
        a >= 0 ==> 0 <= q <= a,
        a < 0 ==> a <= q <= 0,
{
    let m: u128 = if a >= 0 {
        a as u128
    } else {
        (-a) as u128
    };
    let d: u128 = b as u128;
    let whole: u128 = m / d;
    let rest: u128 = m % d;
    proof {
        lemma_round_up(m as int, d as int);
        assert(whole <= m) by (nonlinear_arith)
            requires
                whole == m / d,
                d >= 1,
        ;
        assert(m == d * whole + rest) by (nonlinear_arith)
            requires
                whole == m / d,
                rest == m % d,
                d >= 1,
        ;
        assert(whole == m ==> rest == 0 || m == 0) by (nonlinear_arith)
            requires
                m == d * whole + rest,
                d >= 1,
                rest >= 0,
        ;
        assert(whole == m && m == 0 ==> rest == 0) by (nonlinear_arith)
            requires
                m == d * whole + rest,
                rest >= 0,
        ;
    }
    let up: u128 = if rest >= d - rest {
        whole + 1
    } else {
        whole
    };
    if a >= 0 {
        up as i128
    } else {
        -(up as i128)
    }
}

/// Whole units in an amount of millionths, the fraction dropped.
pub fn trunc_units(v: i128) -> (q: i128)
    requires
        v > i128::MIN,
    ensures
        q == trunc_div(v as int, UNIT as int),
        v >= 0 ==> 0 <= q <= v,
        v < 0 ==> v <= q <= 0,
{
    if v >= 0 {
        v / (UNIT as i128)
    } else {
        -((-v) / (UNIT as i128))
    }
}

/// Whole seconds of a clock reading, the fraction dropped.
pub fn secs_of(now: Micros) -> (t: i64)
    ensures
        t == trunc_div(now as int, UNIT as int),
{
    trunc_units(now as i128) as i64
}

/// A moment in whole seconds, in microseconds.
pub fn micros_at(t: i64) -> (r: i128)
    ensures
        r == t * UNIT,
        i64::MIN * UNIT <= r <= i64::MAX * UNIT,
{
    t as i128 * UNIT as i128
}

pub fn half_even_quotient(a: u128, b: u128) -> (q: u128)
    requires
        b > 1,
    ensures
        q == half_even(a as nat, b as nat),
{
    let whole: u128 = a / b;
    let rest: u128 = a % b;
    proof {
        assert(whole < u128::MAX) by (nonlinear_arith)
            requires
                whole == a / b,
                b > 1,
                a <= u128::MAX,
        ;
    }
    if rest < b - rest || (rest == b - rest && whole % 2 == 0) {
        whole
    } else {
        whole + 1
    }
}

/// Ten to the `k`.
pub open spec fn pow10(k: nat) -> nat
    decreases k,
{
    if k == 0 {
        1
    } else {
        10 * pow10((k - 1) as nat)
    }
}

/// 2^52: the digits of a double stand for a whole number from here up to twice as much.
pub const DOUBLE_DIGITS: u128 = 4_503_599_627_370_496;

/// How often `a` doubles before it is 2^52 times `c`.
pub open spec fn doublings(a: nat, c: nat) -> nat
    decreases
            (if a < DOUBLE_DIGITS * c {
                DOUBLE_DIGITS * c - a
            } else {
                0
            }),
{
    if 0 < a < DOUBLE_DIGITS * c {
        1 + doublings(2 * a, c)
    } else {
        0
    }
}

/// The digits of the double nearest to `a / c`, for quotients below 2^52: it is that many parts of
/// two to the [`doublings`].
pub open spec fn double_digits(a: nat, c: nat) -> nat {
    half_even(a * power(2, doublings(a, c)), c)
}

/// The double nearest to `m` parts of a unit worth ten to the `k` of them, in units of ten to the
/// minus `d`, rounded to the nearest with halves to the even one. A decimal fraction that no
/// double holds lies to one side of the half that it is written as.
pub open spec fn shown(m: nat, k: nat, d: nat) -> nat {
    let c = pow10(k);
    half_even(double_digits(m, c) * pow10(d), power(2, doublings(m, c)))
}

/// `m` parts of a unit that is worth ten to the `k` of them, in decimal notation with `d` places.
pub open spec fn decimal_text(m: nat, k: nat, d: nat) -> Seq<char> {
    let h = shown(m, k, d);
    dec(h / pow10(d)) + (if d == 0 {
        Seq::empty()
    } else {
        seq!['.'] + dec_places(h, d)
    })
}

pub open spec fn magnitude_of(v: int) -> nat {
    (if v < 0 {
        -v
    } else {
        v
    }) as nat
}

pub open spec fn minus_if(neg: bool) -> Seq<char> {
    if neg {
        seq!['-']
    } else {
        Seq::empty()
    }
}

/// An amount of millionths in decimal notation with `d` places.
pub open spec fn fixed_text(v: int, d: nat) -> Seq<char> {
    minus_if(v < 0) + decimal_text(magnitude_of(v), 6, d)
}

/// Ten to the `k`.
pub fn ten_to(k: u8) -> (r: u128)
    requires
        k <= 12,
    ensures
        r == pow10(k as nat),
        1 <= r <= 1_000_000_000_000,
        k > 0 ==> r >= 10,
{
    let mut r: u128 = 1;
    let mut i: u8 = 0;
    proof {
        reveal_with_fuel(pow10, 14);
    }
    while i < k
        invariant
            i <= k <= 12,
            r == pow10(i as nat),
            pow10(12) == 1_000_000_000_000,
            r <= pow10(12),
            i > 0 ==> r >= 10,
            r >= 1,
        decreases k - i,
    {
        proof {
            lemma_pow10_grows((i + 1) as nat, 12);
        }
        r = r * 10;
        i = i + 1;
    }
    r
}

pub(crate) proof fn lemma_pow10_grows(a: nat, b: nat)
    requires
        a <= b,
    ensures
        pow10(a) <= pow10(b),
    decreases b,
{
    if a < b {
        lemma_pow10_grows(a, (b - 1) as nat);
    }
}

/// `m` parts of a unit, as [`shown`] with `d` places.
pub fn shown_parts(m: u128, k: u8, d: u8) -> (h: u128)
    requires
        m <= 9_223_372_036_854_775_808,
        6 <= k <= 12,
        d <= 12,
    ensures
        h == shown(m as nat, k as nat, d as nat),
{
    let c: u128 = ten_to(k);
    proof {
        lemma_pow10_grows(6, k as nat);
        reveal_with_fuel(pow10, 7);
    }
    if m == 0 {
        assert(0 * pow10(d as nat) == 0);
        assert(half_even(0, 1) == 0 && half_even(0, c as nat) == 0);
        return 0;
    }
    let top: u128 = DOUBLE_DIGITS * c;
    let mut a: u128 = m;
    let mut scale: u128 = 1;
    let ghost mut n: nat = 0;
    assert(m * 1 == m);
    while a < top
        invariant
            1_000_000 <= c <= 1_000_000_000_000,
            0 < m,
            top == DOUBLE_DIGITS * c,
            0 < a < 2 * top,
            a == m * scale,
            1 <= scale <= a,
            scale == power(2, n),
            n > 0 ==> scale >= 2,
            doublings(m as nat, c as nat) == n + doublings(a as nat, c as nat),
        decreases 2 * top - a,
    {
        proof {
            assert(m * (2 * scale) == 2 * (m * scale)) by (nonlinear_arith);
            n = n + 1;
        }
        a = 2 * a;
        scale = 2 * scale;
    }
    proof {
        assert(m < top);
        assert(doublings(m as nat, c as nat) == n);
        assert(n > 0);
        assert(a / c <= 2 * DOUBLE_DIGITS) by (nonlinear_arith)
            requires
                a < 2 * (DOUBLE_DIGITS * c),
                c > 0,
        ;
    }
    let digits: u128 = half_even_quotient(a, c);
    let places: u128 = ten_to(d);
    proof {
        assert(digits * places <= 9_007_199_254_740_993 * 1_000_000_000_000) by (nonlinear_arith)
            requires
                digits <= 9_007_199_254_740_993,
                places <= 1_000_000_000_000,
        ;
    }
    half_even_quotient(digits * places, scale)
}

/// Appends `m` parts of a unit in decimal notation.
pub fn push_decimal(s: &mut String, m: u128, k: u8, d: u8)
    requires
        m <= 9_223_372_036_854_775_808,
        6 <= k <= 12,
        d <= 12,
    ensures
        final(s)@ == old(s)@ + decimal_text(m as nat, k as nat, d as nat),
{
    let ghost before = s@;
    let h: u128 = shown_parts(m, k, d);
    push_dec(s, h / ten_to(d));
    if d > 0 {
        s.push('.');
        push_places(s, h, d);
    }
    assert(s@ =~= before + decimal_text(m as nat, k as nat, d as nat));
}

/// The distance of `v` from zero.
pub fn magnitude_value(v: i128) -> (m: u128)
    requires
        v > i128::MIN,
    ensures
        m == magnitude_of(v as int),
{
    if v < 0 {
        (-v) as u128
    } else {
        v as u128
    }
}

/// Appends an amount of millionths in decimal notation with `d` places.
pub fn push_fixed(s: &mut String, v: i64, d: u8)
    requires
        d < 6,
    ensures
        final(s)@ == old(s)@ + fixed_text(v as int, d as nat),
{
    let ghost before = s@;
    if v < 0 {
        s.push('-');
    }
    push_decimal(s, magnitude_value(v as i128), 6, d);
    assert(s@ =~= before + fixed_text(v as int, d as nat));
}

// ---------------------------------------------------------------------------------------
// Reading numbers
// ---------------------------------------------------------------------------------------

pub open spec fn is_digit(c: char) -> bool {
    '0' <= c && c <= '9'
}

pub open spec fn digit_value(c: char) -> nat {
    (c as int - 48) as nat
}

pub open spec fn all_digits(s: Seq<char>) -> bool {
    forall|i: int| 0 <= i < s.len() ==> is_digit(#[trigger] s[i])
}

/// The number that the first `n` digits of `ds` write, with zeros after its end.
pub open spec fn prefix_value(ds: Seq<char>, n: nat) -> nat
    decreases n,
{
    if n == 0 {
        0
    } else {
        prefix_value(ds, (n - 1) as nat) * 10 + (if n <= ds.len() {
            digit_value(ds[n - 1])
        } else {
            0
        })
    }
}

/// The first position from `from` on that holds `a` or `b`; the length where none does.
pub open spec fn position_of(s: Seq<char>, a: char, b: char, from: nat) -> nat
    decreases s.len() - from,
{
    if from >= s.len() {
        s.len()
    } else if s[from as int] == a || s[from as int] == b {
        from
    } else {
        position_of(s, a, b, from + 1)
    }
}

/// The digits around the decimal point, and how many stand before it. At least one digit is
/// needed, on either side.
pub open spec fn mantissa(m: Seq<char>) -> Option<(Seq<char>, nat)> {
    let dot = position_of(m, '.', '.', 0);
    let ds = m.take(dot as int) + (if dot < m.len() {
        m.skip((dot + 1) as int)
    } else {
        Seq::empty()
    });
    if ds.len() > 0 && all_digits(ds) {
        Some((ds, dot))
    } else {
        None
    }
}

/// Text without its sign, and whether the sign was a minus.
pub open spec fn unsigned(s: Seq<char>) -> (bool, Seq<char>) {
    if s.len() > 0 && s[0] == '-' {
        (true, s.skip(1))
    } else if s.len() > 0 && s[0] == '+' {
        (false, s.skip(1))
    } else {
        (false, s)
    }
}

/// The power of ten after the `e`: a sign, if any, and digits.
pub open spec fn exponent(x: Seq<char>) -> Option<int> {
    let (neg, ds) = unsigned(x);
    if ds.len() > 0 && all_digits(ds) {
        let v = prefix_value(ds, ds.len()) as int;
        Some(
            if neg {
                -v
            } else {
                v
            },
        )
    } else {
        None
    }
}

/// `b` to the `k`.
pub open spec fn power(b: nat, k: nat) -> nat
    decreases k,
{
    if k == 0 {
        1
    } else {
        b * power(b, (k - 1) as nat)
    }
}

pub open spec fn at_least_none(n: int) -> nat {
    if n > 0 {
        n as nat
    } else {
        0
    }
}

/// Where the numbers that a double holds end: (2^54 - 1) * 2^970, half a step above the largest.
/// What is written there or beyond is infinite.
pub open spec fn range_end() -> nat {
    18_014_398_509_481_983 * power(2, 970)
}

/// Whether the digits `ds`, the decimal point `p` places from their start, write a number beyond
/// the range of a double.
pub open spec fn overflows(ds: Seq<char>, p: int) -> bool {
    prefix_value(ds, at_least_none(p)) >= range_end()
}

/// Whether the digits `ds`, the decimal point `p` places from their start, write no more than
/// 2^-1075, half of the least number above zero that a double holds. In units of 10^-1075 that
/// is 5^1075, and what is written there or below is zero.
pub open spec fn vanishes(ds: Seq<char>, p: int) -> bool {
    let n = at_least_none(p + 1075);
    ||| prefix_value(ds, n) < power(5, 1075)
    ||| prefix_value(ds, n) == power(5, 1075) && forall|i: int|
        n <= i < ds.len() ==> #[trigger] ds[i] == '0'
}

/// The digits `ds` with the decimal point `p` places from their start, in millionths: the
/// digits up to the sixth place and, to the nearest, one more if the seventh is five or above.
/// The largest value the range holds stands for what is beyond it, up to where a double is
/// infinite.
pub open spec fn magnitude(ds: Seq<char>, p: int, nearest: bool) -> Num {
    if overflows(ds, p) {
        Num::PosInf
    } else {
        let n = p + 6;
        let v = prefix_value(ds, at_least_none(n)) + (if nearest && 0 <= n < ds.len() && ds[n] >= '5' {
            1int
        } else {
            0int
        });
        Num::Finite(clamp_i64(v) as i64)
    }
}

/// A decimal number without a sign: digits with at most one point among them, and an exponent
/// if an `e` follows. Its digits, and how far from their start the decimal point belongs.
pub open spec fn decimal_of(s: Seq<char>) -> Option<(Seq<char>, int)> {
    let e = position_of(s, 'e', 'E', 0);
    match mantissa(s.take(e as int)) {
        None => None,
        Some((ds, dot)) => if e == s.len() {
            Some((ds, dot as int))
        } else {
            match exponent(s.skip((e + 1) as int)) {
                None => None,
                Some(x) => Some((ds, dot + x)),
            }
        },
    }
}

pub open spec fn unsigned_number(s: Seq<char>, nearest: bool) -> Option<Num> {
    match decimal_of(s) {
        Some((ds, p)) => Some(magnitude(ds, p, nearest)),
        None => None,
    }
}

/// Whether `s` writes a finite number above zero, however small.
pub open spec fn writes_positive(s: Seq<char>) -> bool {
    let (neg, body) = unsigned(s);
    &&& !neg
    &&& decimal_of(body) matches Some((ds, p))
    &&& !vanishes(ds, p)
    &&& !overflows(ds, p)
}

pub open spec fn lower(c: char) -> char {
    if 'A' <= c && c <= 'Z' {
        (c as int + 32) as char
    } else {
        c
    }
}

/// Whether `s` is `word` but for the case of its letters.
pub open spec fn is_word(s: Seq<char>, word: Seq<char>) -> bool {
    s.len() == word.len() && forall|i: int|
        0 <= i < s.len() ==> lower(#[trigger] s[i]) == word[i]
}

pub open spec fn negated(n: Num) -> Num {
    match n {
        Num::Finite(v) => Num::Finite((-v) as i64),
        Num::PosInf => Num::NegInf,
        Num::NegInf => Num::PosInf,
        Num::NaN => Num::NaN,
    }
}

/// The number that `s` writes, if it writes one: a sign, if any, then `inf`, `infinity`,
/// `nan` (in any case) or a decimal number.
pub open spec fn number_read(s: Seq<char>, nearest: bool) -> Option<Num> {
    let (neg, body) = unsigned(s);
    let n = if is_word(body, "inf"@) || is_word(body, "infinity"@) {
        Some(Num::PosInf)
    } else if is_word(body, "nan"@) {
        Some(Num::NaN)
    } else {
        unsigned_number(body, nearest)
    };
    match n {
        Some(v) if neg => Some(negated(v)),
        other => other,
    }
}

/// The number that `s` writes, cut to whole millionths.
pub open spec fn number_of(s: Seq<char>) -> Option<Num> {
    number_read(s, false)
}

/// The number that `s` writes, to the nearest millionth.
pub open spec fn amount_of(s: Seq<char>) -> Option<Num> {
    number_read(s, true)
}

proof fn lemma_prefix_zero(ds: Seq<char>, n: nat)
    requires
        forall|i: int| 0 <= i < ds.len() && i < n ==> #[trigger] ds[i] == '0',
    ensures
        prefix_value(ds, n) == 0,
    decreases n,
{
    if n > 0 {
        lemma_prefix_zero(ds, (n - 1) as nat);
        if n <= ds.len() {
            assert(ds[n - 1] == '0');
        }
    }
}

proof fn lemma_prefix_grows(ds: Seq<char>, m: nat, n: nat)
    requires
        m <= n,
    ensures
        prefix_value(ds, m) <= prefix_value(ds, n),
    decreases n,
{
    if m < n {
        lemma_prefix_grows(ds, m, (n - 1) as nat);
    }
}

proof fn lemma_prefix_stays_zero(ds: Seq<char>, m: nat, n: nat)
    requires
        ds.len() <= m <= n,
        prefix_value(ds, m) == 0,
    ensures
        prefix_value(ds, n) == 0,
    decreases n,
{
    if m < n {
        lemma_prefix_stays_zero(ds, m, (n - 1) as nat);
    }
}

/// A power of ten this large decides the result whatever the digits are.
const EXPONENT_LIMIT: i128 = 1_000_000_000_000_000_000_000_000_000_000;

spec fn clamp_exponent(v: int) -> int {
    if v > EXPONENT_LIMIT {
        EXPONENT_LIMIT as int
    } else if v < -EXPONENT_LIMIT {
        -EXPONENT_LIMIT
    } else {
        v
    }
}

proof fn lemma_clamped_exponent(ds: Seq<char>, dot: nat, x: int)
    requires
        ds.len() <= usize::MAX,
        dot <= ds.len(),
        all_digits(ds),
    ensures
        forall|nearest: bool|
            #[trigger] magnitude(ds, dot + x, nearest) == magnitude(
                ds,
                dot + clamp_exponent(x),
                nearest,
            ),
        overflows(ds, dot + x) == overflows(ds, dot + clamp_exponent(x)),
        vanishes(ds, dot + x) == vanishes(ds, dot + clamp_exponent(x)),
{
    let p = dot + x;
    let q = dot + clamp_exponent(x);
    lemma_bounds_are_positive();
    if x > EXPONENT_LIMIT {
        if exists|i: int| 0 <= i < ds.len() && #[trigger] ds[i] != '0' {
            let i = choose|i: int| 0 <= i < ds.len() && #[trigger] ds[i] != '0';
            lemma_overflows_far(ds, i, p);
            lemma_overflows_far(ds, i, q);
            lemma_does_not_vanish(ds, i, p);
            lemma_does_not_vanish(ds, i, q);
        } else {
            lemma_prefix_zero(ds, p as nat);
            lemma_prefix_zero(ds, q as nat);
            lemma_prefix_zero(ds, (p + 6) as nat);
            lemma_prefix_zero(ds, (q + 6) as nat);
            lemma_prefix_zero(ds, (p + 1075) as nat);
            lemma_prefix_zero(ds, (q + 1075) as nat);
        }
    }
}

pub(crate) proof fn lemma_power_positive(b: nat, k: nat)
    requires
        b > 0,
    ensures
        power(b, k) > 0,
    decreases k,
{
    if k > 0 {
        lemma_power_positive(b, (k - 1) as nat);
        assert(b * power(b, (k - 1) as nat) > 0) by (nonlinear_arith)
            requires
                b > 0,
                power(b, (k - 1) as nat) > 0,
        ;
    }
}

proof fn lemma_bounds_are_positive()
    ensures
        range_end() >= power(2, 970) > 0,
        power(5, 1075) > 0,
{
    lemma_power_positive(2, 970);
    lemma_power_positive(5, 1075);
}

/// 2^(2k) is at most 10^k.
proof fn lemma_twos(k: nat)
    ensures
        power(2, 2 * k) <= pow10(k),
    decreases k,
{
    if k > 0 {
        lemma_twos((k - 1) as nat);
        reveal_with_fuel(power, 3);
        assert(power(2, 2 * k) == 4 * power(2, (2 * k - 2) as nat));
    }
}

/// 10^(3k) is at most 2^(10k).
proof fn lemma_thousands(k: nat)
    ensures
        pow10(3 * k) <= power(2, 10 * k),
    decreases k,
{
    if k > 0 {
        lemma_thousands((k - 1) as nat);
        reveal_with_fuel(pow10, 4);
        reveal_with_fuel(power, 11);
        assert(pow10(3 * k) == 1000 * pow10((3 * k - 3) as nat));
        assert(power(2, 10 * k) == 1024 * power(2, (10 * k - 10) as nat));
    }
}

/// 5^(10k) is at most 10^(7k).
proof fn lemma_fives(k: nat)
    ensures
        power(5, 10 * k) <= pow10(7 * k),
    decreases k,
{
    if k > 0 {
        lemma_fives((k - 1) as nat);
        reveal_with_fuel(pow10, 8);
        reveal_with_fuel(power, 11);
        assert(power(5, 10 * k) == 9_765_625 * power(5, (10 * k - 10) as nat));
        assert(pow10(7 * k) == 10_000_000 * pow10((7 * k - 7) as nat));
    }
}

pub(crate) proof fn lemma_power_grows(b: nat, m: nat, n: nat)
    requires
        b >= 1,
        m <= n,
    ensures
        power(b, m) <= power(b, n),
    decreases n,
{
    if m < n {
        lemma_power_grows(b, m, (n - 1) as nat);
        assert(power(b, (n - 1) as nat) <= b * power(b, (n - 1) as nat)) by (nonlinear_arith)
            requires
                b >= 1,
        ;
    }
}

pub(crate) proof fn lemma_power_add(b: nat, m: nat, n: nat)
    ensures
        power(b, m + n) == power(b, m) * power(b, n),
    decreases m,
{
    if m > 0 {
        let k = (m - 1) as nat;
        lemma_power_add(b, k, n);
        assert(b * (power(b, k) * power(b, n)) == (b * power(b, k)) * power(b, n))
            by (nonlinear_arith);
    } else {
        assert(1 * power(b, n) == power(b, n));
    }
}

/// A digit other than zero is worth at least its place.
proof fn lemma_prefix_floor(ds: Seq<char>, f: int, n: nat)
    requires
        0 <= f < ds.len(),
        all_digits(ds),
        ds[f] != '0',
        n > f,
    ensures
        prefix_value(ds, n) >= pow10((n - f - 1) as nat),
    decreases n,
{
    assert(is_digit(ds[f]));
    if n > f + 1 {
        lemma_prefix_floor(ds, f, (n - 1) as nat);
    }
}

/// Digits behind `f` zeros stay below the place of the last zero.
proof fn lemma_prefix_ceiling(ds: Seq<char>, f: nat, n: nat)
    requires
        f <= ds.len(),
        all_digits(ds),
        forall|i: int| 0 <= i < f ==> #[trigger] ds[i] == '0',
        n >= f,
    ensures
        prefix_value(ds, n) < pow10((n - f) as nat),
    decreases n,
{
    if n > f {
        lemma_prefix_ceiling(ds, f, (n - 1) as nat);
        if n <= ds.len() {
            assert(is_digit(ds[n - 1]));
        }
    } else {
        lemma_prefix_zero(ds, n);
    }
}

proof fn lemma_overflows_far(ds: Seq<char>, f: int, p: int)
    requires
        0 <= f < ds.len(),
        all_digits(ds),
        ds[f] != '0',
        p - f > 512,
    ensures
        overflows(ds, p),
{
    lemma_prefix_floor(ds, f, p as nat);
    lemma_pow10_grows(512, (p - f - 1) as nat);
    lemma_twos(512);
    lemma_power_add(2, 54, 970);
    lemma_power_positive(2, 970);
    assert(power(2, 54) == 18_014_398_509_481_984) by {
        reveal_with_fuel(power, 55);
    }
    assert(18_014_398_509_481_984 * power(2, 970) >= 18_014_398_509_481_983 * power(2, 970))
        by (nonlinear_arith);
}

proof fn lemma_overflows_not(ds: Seq<char>, f: nat, p: int)
    requires
        f <= ds.len(),
        all_digits(ds),
        forall|i: int| 0 <= i < f ==> #[trigger] ds[i] == '0',
        p - f <= 291,
    ensures
        !overflows(ds, p),
{
    lemma_bounds_are_positive();
    let n = at_least_none(p);
    if n >= f {
        lemma_prefix_ceiling(ds, f, n);
        lemma_pow10_grows((n - f) as nat, 291);
        lemma_thousands(97);
    } else {
        lemma_prefix_zero(ds, n);
    }
}

proof fn lemma_does_not_vanish(ds: Seq<char>, f: int, p: int)
    requires
        0 <= f < ds.len(),
        all_digits(ds),
        ds[f] != '0',
        p - f >= -300,
    ensures
        !vanishes(ds, p),
{
    let n = (p + 1075) as nat;
    lemma_prefix_floor(ds, f, n);
    lemma_pow10_grows(757, (n - f - 1) as nat);
    lemma_fives(108);
    lemma_power_grows(5, 1075, 1080);
    assert(pow10(757) == 10 * pow10(756));
    lemma_pow10_grows(0, 756);
}

proof fn lemma_ninety_three_twos()
    ensures
        power(2, 93) <= pow10(28),
{
    assert(power(2, 31) == 2_147_483_648) by {
        reveal_with_fuel(power, 32);
    }
    assert(pow10(14) == 100_000_000_000_000) by {
        reveal_with_fuel(pow10, 15);
    }
    lemma_power_add(2, 31, 31);
    lemma_power_add(2, 31, 62);
    lemma_pow10_add(14, 14);
    assert(2_147_483_648int * (2_147_483_648int * 2_147_483_648int)
        <= 100_000_000_000_000int * 100_000_000_000_000int);
}

/// 2^(93k) is at most 10^(28k).
proof fn lemma_many_twos(k: nat)
    ensures
        power(2, 93 * k) <= pow10(28 * k),
    decreases k,
{
    if k > 0 {
        let below = (k - 1) as nat;
        lemma_many_twos(below);
        lemma_power_add(2, 93, 93 * below);
        lemma_pow10_add(28, 28 * below);
        lemma_ninety_three_twos();
        assert(93 + 93 * below == 93 * k && 28 + 28 * below == 28 * k);
        assert(power(2, 93) * power(2, 93 * below) <= pow10(28) * pow10(28 * below))
            by (nonlinear_arith)
            requires
                power(2, 93) <= pow10(28),
                power(2, 93 * below) <= pow10(28 * below),
        ;
    }
}

proof fn lemma_pow10_add(m: nat, n: nat)
    ensures
        pow10(m + n) == pow10(m) * pow10(n),
    decreases m,
{
    if m > 0 {
        let k = (m - 1) as nat;
        lemma_pow10_add(k, n);
        assert(10 * (pow10(k) * pow10(n)) == (10 * pow10(k)) * pow10(n)) by (nonlinear_arith);
    } else {
        assert(1 * pow10(n) == pow10(n));
    }
}

/// A number of 2 * 10^308 or more is infinite.
pub proof fn a_number_past_the_range_is_infinite(ds: Seq<char>, p: int, nearest: bool)
    requires
        prefix_value(ds, at_least_none(p)) >= 2 * pow10(308),
    ensures
        overflows(ds, p),
        magnitude(ds, p, nearest) == Num::PosInf,
{
    lemma_many_twos(11);
    lemma_power_add(2, 54, 970);
    assert(power(2, 1024) == 2 * power(2, 1023));
    assert(power(2, 54) == 18_014_398_509_481_984) by {
        reveal_with_fuel(power, 55);
    }
    assert(18_014_398_509_481_984 * power(2, 970) >= 18_014_398_509_481_983 * power(2, 970))
        by (nonlinear_arith);
}

/// A number without a minus whose first digit other than zero stands within three hundred places
/// below the point and two hundred and ninety above it is positive, far below a millionth too.
pub proof fn a_number_above_zero_is_positive(s: Seq<char>, ds: Seq<char>, p: int, f: int)
    requires
        !unsigned(s).0,
        decimal_of(unsigned(s).1) == Some((ds, p)),
        0 <= f < ds.len(),
        ds[f] != '0',
        forall|i: int| 0 <= i < f ==> #[trigger] ds[i] == '0',
        -300 <= p - f <= 291,
    ensures
        writes_positive(s),
{
    lemma_does_not_vanish(ds, f, p);
    lemma_overflows_not(ds, f as nat, p);
}

/// Whether the digits `ds`, the decimal point `p` places from their start, write `m` millionths or
/// more.
pub open spec fn written_at_least(ds: Seq<char>, p: int, m: nat) -> bool {
    let n = p + 6;
    if n >= ds.len() {
        prefix_value(ds, n as nat) >= m
    } else {
        prefix_value(ds, ds.len()) >= m * pow10((ds.len() - n) as nat)
    }
}

/// The digits after the first `n` are worth less than the last of those.
proof fn lemma_prefix_cut(ds: Seq<char>, n: nat, k: nat)
    requires
        all_digits(ds),
    ensures
        prefix_value(ds, n) * pow10(k) <= prefix_value(ds, n + k) < (prefix_value(ds, n) + 1)
            * pow10(k),
    decreases k,
{
    let v = prefix_value(ds, n);
    if k > 0 {
        lemma_prefix_cut(ds, n, (k - 1) as nat);
        if n + k <= ds.len() {
            assert(is_digit(ds[n + k - 1]));
        }
        let t = pow10((k - 1) as nat);
        assert(v * (10 * t) == 10 * (v * t)) by (nonlinear_arith);
        assert((v + 1) * (10 * t) == 10 * ((v + 1) * t)) by (nonlinear_arith);
    } else {
        assert(v * 1 == v && (v + 1) * 1 == v + 1);
    }
}

/// Cut to whole millionths, a number stands to every threshold as it does where it is written.
pub proof fn a_cut_number_keeps_its_thresholds(ds: Seq<char>, p: int, m: nat)
    requires
        all_digits(ds),
        m <= i64::MAX,
    ensures
        magnitude(ds, p, false).at_least(m as int) <==> overflows(ds, p) || written_at_least(
            ds,
            p,
            m,
        ),
{
    let n = p + 6;
    if n < ds.len() {
        let k = (ds.len() - n) as nat;
        let all = prefix_value(ds, ds.len());
        lemma_pow10_grows(0, k);
        if n >= 0 {
            let v = prefix_value(ds, n as nat);
            let t = pow10(k);
            lemma_prefix_cut(ds, n as nat, k);
            assert(v >= m ==> v * t >= m * t) by (nonlinear_arith);
            assert(v < m ==> (v + 1) * t <= m * t) by (nonlinear_arith);
        } else {
            lemma_prefix_ceiling(ds, 0, ds.len());
            lemma_pow10_grows(ds.len(), k);
            assert(m > 0 ==> m * pow10(k) >= pow10(k)) by (nonlinear_arith);
            assert(m == 0 ==> m * pow10(k) == 0) by (nonlinear_arith);
        }
    }
}

/// Where the first digit other than zero stands.
fn first_digit(ds: &[char]) -> (f: usize)
    ensures
        f <= ds@.len(),
        forall|i: int| 0 <= i < f ==> #[trigger] ds@[i] == '0',
        f < ds@.len() ==> ds@[f as int] != '0',
{
    let mut f: usize = 0;
    while f < ds.len() && ds[f] == '0'
        invariant
            f <= ds@.len(),
            forall|i: int| 0 <= i < f ==> #[trigger] ds@[i] == '0',
        decreases ds@.len() - f,
    {
        f = f + 1;
    }
    f
}

fn power_of(b: u128, k: u32) -> (r: Big)
    ensures
        r@ == power(b as nat, k as nat),
{
    let base = Big::of(b);
    let mut r = Big::of(1);
    let mut i: u32 = 0;
    while i < k
        invariant
            i <= k,
            base@ == b,
            r@ == power(b as nat, i as nat),
        decreases k - i,
    {
        let ghost before = r@;
        r = r.times(&base);
        i = i + 1;
        assert(before * (b as nat) == (b as nat) * before) by (nonlinear_arith);
    }
    r
}

/// The number that the first `n` digits write, where the first `f` are zeros.
fn prefix_of(ds: &[char], f: usize, n: i128) -> (r: Big)
    requires
        all_digits(ds@),
        f <= ds@.len(),
        forall|i: int| 0 <= i < f ==> #[trigger] ds@[i] == '0',
        f <= n,
    ensures
        r@ == prefix_value(ds@, n as nat),
{
    let ten = Big::of(10);
    let mut r = Big::zero();
    let mut k: i128 = f as i128;
    proof {
        lemma_prefix_zero(ds@, f as nat);
    }
    while k < n
        invariant
            f <= k <= n,
            all_digits(ds@),
            ten@ == 10,
            r@ == prefix_value(ds@, k as nat),
        decreases n - k,
    {
        let d: u8 = if k < ds.len() as i128 {
            digit_of(ds[k as usize])
        } else {
            0
        };
        r = r.times(&ten).plus(&Big::of(d as u128));
        k = k + 1;
    }
    r
}

fn is_beyond(ds: &[char], p: i128) -> (r: bool)
    requires
        all_digits(ds@),
        -EXPONENT_LIMIT <= p <= EXPONENT_LIMIT + usize::MAX,
    ensures
        r == overflows(ds@, p as int),
{
    let f = first_digit(ds);
    let lead: i128 = p - f as i128;
    if lead <= 291 || f == ds.len() {
        proof {
            lemma_bounds_are_positive();
            if lead <= 291 {
                lemma_overflows_not(ds@, f as nat, p as int);
            } else {
                lemma_prefix_zero(ds@, at_least_none(p as int));
            }
        }
        return false;
    }
    if lead > 512 {
        proof {
            lemma_overflows_far(ds@, f as int, p as int);
        }
        return true;
    }
    let end = Big::of(18_014_398_509_481_983).times(&power_of(2, 970));
    end.at_most(&prefix_of(ds, f, p))
}

fn is_nothing(ds: &[char], p: i128) -> (r: bool)
    requires
        all_digits(ds@),
        -EXPONENT_LIMIT <= p <= EXPONENT_LIMIT + usize::MAX,
    ensures
        r == vanishes(ds@, p as int),
{
    let f = first_digit(ds);
    let n: i128 = p + 1075;
    proof {
        lemma_bounds_are_positive();
    }
    if f == ds.len() || n <= f as i128 {
        proof {
            lemma_prefix_zero(ds@, at_least_none(n as int));
        }
        return true;
    }
    if p - f as i128 >= -300 {
        proof {
            lemma_does_not_vanish(ds@, f as int, p as int);
        }
        return false;
    }
    let least = power_of(5, 1075);
    let whole = prefix_of(ds, f, n);
    if !whole.at_most(&least) {
        return false;
    }
    if !least.at_most(&whole) {
        return true;
    }
    let mut i: i128 = n;
    while i < ds.len() as i128
        invariant
            0 <= n <= i,
            n == p + 1075,
            prefix_value(ds@, n as nat) == power(5, 1075),
            forall|j: int| n <= j < i && j < ds@.len() ==> #[trigger] ds@[j] == '0',
        decreases ds@.len() - i,
    {
        if ds[i as usize] != '0' {
            assert(ds@[i as int] != '0');
            return false;
        }
        i = i + 1;
    }
    true
}

fn digits_only(v: &[char]) -> (r: bool)
    ensures
        r == all_digits(v@),
{
    let mut i: usize = 0;
    while i < v.len()
        invariant
            i <= v@.len(),
            forall|j: int| 0 <= j < i ==> is_digit(#[trigger] v@[j]),
        decreases v@.len() - i,
    {
        if !('0' <= v[i] && v[i] <= '9') {
            assert(!is_digit(v@[i as int]));
            return false;
        }
        i = i + 1;
    }
    true
}

fn find(v: &[char], a: char, b: char) -> (r: usize)
    ensures
        r == position_of(v@, a, b, 0),
        r <= v@.len(),
{
    let mut i: usize = 0;
    while i < v.len() && v[i] != a && v[i] != b
        invariant
            i <= v@.len(),
            position_of(v@, a, b, 0) == position_of(v@, a, b, i as nat),
        decreases v@.len() - i,
    {
        i = i + 1;
    }
    i
}

fn digit_of(c: char) -> (d: u8)
    requires
        is_digit(c),
    ensures
        d == digit_value(c),
        d < 10,
{
    (c as u32 - 48) as u8
}

fn read_exponent(x: &[char]) -> (r: Option<i128>)
    ensures
        match exponent(x@) {
            Some(v) => r == Some(clamp_exponent(v) as i128),
            None => r is None,
        },
{
    let neg = x.len() > 0 && x[0] == '-';
    let from: usize = if x.len() > 0 && (x[0] == '-' || x[0] == '+') {
        1
    } else {
        0
    };
    let ds = slice_subrange(x, from, x.len());
    assert(ds@ =~= unsigned(x@).1);
    if ds.len() == 0 || !digits_only(ds) {
        return None;
    }
    let limit: i128 = EXPONENT_LIMIT;
    let mut acc: i128 = 0;
    let mut i: usize = 0;
    while i < ds.len() && acc <= limit
        invariant
            i <= ds@.len(),
            all_digits(ds@),
            limit == EXPONENT_LIMIT,
            0 <= acc <= limit * 10 + 9,
            acc == prefix_value(ds@, i as nat),
        decreases ds@.len() - i,
    {
        acc = acc * 10 + digit_of(ds[i]) as i128;
        i = i + 1;
    }
    proof {
        lemma_prefix_grows(ds@, i as nat, ds@.len());
    }
    let m: i128 = if acc > limit {
        limit
    } else {
        acc
    };
    if neg {
        Some(-m)
    } else {
        Some(m)
    }
}

fn read_magnitude(ds: &[char], p: i128, nearest: bool) -> (r: Num)
    requires
        all_digits(ds@),
        -EXPONENT_LIMIT <= p <= EXPONENT_LIMIT + usize::MAX,
    ensures
        r == magnitude(ds@, p as int, nearest),
{
    if is_beyond(ds, p) {
        return Num::PosInf;
    }
    let n: i128 = p + 6;
    let ghost end: nat = at_least_none(n as int);
    let mut acc: i128 = 0;
    let mut k: i128 = 0;
    while k < n && acc <= i64::MAX as i128 && (k < ds.len() as i128 || acc > 0)
        invariant
            0 <= k <= end,
            end == at_least_none(n as int),
            n <= EXPONENT_LIMIT + usize::MAX + 6,
            all_digits(ds@),
            acc == prefix_value(ds@, k as nat),
            0 <= acc <= i64::MAX * 10 + 9,
        decreases end - k,
    {
        let d: u8 = if k < ds.len() as i128 {
            digit_of(ds[k as usize])
        } else {
            0
        };
        acc = acc * 10 + d as i128;
        k = k + 1;
    }
    proof {
        lemma_prefix_grows(ds@, k as nat, end);
        if k < end && acc <= i64::MAX {
            lemma_prefix_stays_zero(ds@, k as nat, end);
        }
    }
    let up: i128 = if nearest && 0 <= n && n < ds.len() as i128 && ds[n as usize] >= '5' {
        1
    } else {
        0
    };
    Num::Finite(saturate(acc + up))
}

fn is_named(v: &[char], word: &str) -> (r: bool)
    ensures
        r == is_word(v@, word@),
{
    let w = chars_of(word);
    if v.len() != w.len() {
        return false;
    }
    let mut i: usize = 0;
    while i < v.len()
        invariant
            i <= v@.len(),
            v@.len() == w@.len(),
            w@ == word@,
            forall|j: int| 0 <= j < i ==> lower(#[trigger] v@[j]) == w@[j],
        decreases v@.len() - i,
    {
        let c: char = v[i];
        let l: char = if 'A' <= c && c <= 'Z' {
            (c as u8 + 32u8) as char
        } else {
            c
        };
        assert(l == lower(c));
        if l != w[i] {
            assert(lower(v@[i as int]) != w@[i as int]);
            return false;
        }
        i = i + 1;
    }
    true
}

fn read_mantissa(m: &[char]) -> (r: Option<(Vec<char>, usize)>)
    ensures
        match mantissa(m@) {
            Some((ds, dot)) => r matches Some((v, d)) && v@ == ds && d == dot && d <= v@.len(),
            None => r is None,
        },
{
    let dot = find(m, '.', '.');
    let mut ds: Vec<char> = Vec::new();
    let mut i: usize = 0;
    let ghost whole = m@.take(dot as int) + (if dot < m@.len() {
        m@.skip(dot + 1)
    } else {
        Seq::empty()
    });
    while i < m.len()
        invariant
            i <= m@.len(),
            dot <= m@.len(),
            whole == m@.take(dot as int) + (if dot < m@.len() {
                m@.skip(dot + 1)
            } else {
                Seq::empty()
            }),
            ds@ == whole.take(
                if i <= dot {
                    i as int
                } else {
                    i - 1
                },
            ),
        decreases m@.len() - i,
    {
        if i != dot {
            ds.push(m[i]);
            assert(ds@ =~= whole.take(
                if i < dot {
                    i + 1
                } else {
                    i as int
                },
            ));
        }
        i = i + 1;
    }
    assert(ds@ =~= whole);
    if ds.len() > 0 && digits_only(ds.as_slice()) {
        Some((ds, dot))
    } else {
        None
    }
}

/// The digits of a decimal number, and its point: where that lies too far off to matter how far,
/// some point that reads the same.
fn read_decimal(s: &[char]) -> (r: Option<(Vec<char>, i128)>)
    ensures
        match decimal_of(s@) {
            Some((ds, p)) => r matches Some((v, q)) && v@ == ds && all_digits(ds) && {
                &&& -EXPONENT_LIMIT <= q <= EXPONENT_LIMIT + usize::MAX
                &&& forall|nearest: bool|
                    #[trigger] magnitude(ds, q as int, nearest) == magnitude(ds, p, nearest)
                &&& overflows(ds, q as int) == overflows(ds, p)
                &&& vanishes(ds, q as int) == vanishes(ds, p)
            },
            None => r is None,
        },
{
    let e = find(s, 'e', 'E');
    let head = slice_subrange(s, 0, e);
    assert(head@ =~= s@.take(e as int));
    let (ds, dot) = match read_mantissa(head) {
        Some(found) => found,
        None => {
            return None;
        },
    };
    if e == s.len() {
        return Some((ds, dot as i128));
    }
    let tail = slice_subrange(s, e + 1, s.len());
    assert(tail@ =~= s@.skip(e + 1));
    match read_exponent(tail) {
        None => None,
        Some(x) => {
            proof {
                assert(ds@.len() == ds.len());
                lemma_clamped_exponent(ds@, dot as nat, exponent(tail@)->0);
            }
            Some((ds, dot as i128 + x))
        },
    }
}

fn read_unsigned(s: &[char], nearest: bool) -> (r: Option<Num>)
    ensures
        r == unsigned_number(s@, nearest),
        r matches Some(n) ==> match n {
            Num::Finite(v) => v >= 0,
            _ => true,
        },
{
    match read_decimal(s) {
        Some((ds, p)) => Some(read_magnitude(ds.as_slice(), p, nearest)),
        None => None,
    }
}

/// Whether a text is a finite number above zero, however small.
pub fn is_positive(s: &[char]) -> (r: bool)
    ensures
        r == writes_positive(s@),
{
    if s.len() > 0 && s[0] == '-' {
        return false;
    }
    let from: usize = if s.len() > 0 && s[0] == '+' {
        1
    } else {
        0
    };
    let body = slice_subrange(s, from, s.len());
    assert(body@ =~= unsigned(s@).1);
    match read_decimal(body) {
        Some((ds, p)) => !is_nothing(ds.as_slice(), p) && !is_beyond(ds.as_slice(), p),
        None => false,
    }
}

/// Reads a number, cut to whole millionths: `None` for text that is not one.
pub fn read_number(s: &[char]) -> (r: Option<Num>)
    ensures
        r == number_of(s@),
{
    read_either(s, false)
}

/// Reads a number to the nearest millionth: `None` for text that is not one.
pub fn read_amount(s: &[char]) -> (r: Option<Num>)
    ensures
        r == amount_of(s@),
{
    read_either(s, true)
}

fn read_either(s: &[char], nearest: bool) -> (r: Option<Num>)
    ensures
        r == number_read(s@, nearest),
{
    let neg = s.len() > 0 && s[0] == '-';
    let from: usize = if s.len() > 0 && (s[0] == '-' || s[0] == '+') {
        1
    } else {
        0
    };
    let body = slice_subrange(s, from, s.len());
    assert(body@ =~= unsigned(s@).1);
    let n = if is_named(body, "inf") || is_named(body, "infinity") {
        Some(Num::PosInf)
    } else if is_named(body, "nan") {
        Some(Num::NaN)
    } else {
        read_unsigned(body, nearest)
    };
    match n {
        Some(v) if neg => match v {
            Num::Finite(x) => Some(Num::Finite(-x)),
            Num::PosInf => Some(Num::NegInf),
            Num::NegInf => Some(Num::PosInf),
            Num::NaN => Some(Num::NaN),
        },
        other => other,
    }
}

/// The finite number above zero that `s` writes, in millionths; one millionth stands for what is
/// less.
pub open spec fn positive_of(s: Seq<char>) -> Option<i64> {
    match amount_of(s) {
        Some(Num::Finite(m)) if writes_positive(s) => Some(
            if m > 0 {
                m
            } else {
                1
            },
        ),
        _ => None,
    }
}

proof fn lemma_position_from(s: Seq<char>, a: char, b: char, from: nat)
    requires
        from <= s.len(),
    ensures
        from <= position_of(s, a, b, from) <= s.len(),
    decreases s.len() - from,
{
    if from < s.len() {
        lemma_position_from(s, a, b, from + 1);
    }
}

/// A decimal number opens with a digit or its point.
proof fn lemma_words_are_not_decimal(s: Seq<char>)
    requires
        s.len() > 0,
        !is_digit(s[0]) && s[0] != '.' && s[0] != 'e' && s[0] != 'E',
    ensures
        decimal_of(s) is None,
{
    lemma_position_from(s, 'e', 'E', 1);
    let m = s.take(position_of(s, 'e', 'E', 0) as int);
    lemma_position_from(m, '.', '.', 1);
    let dot = position_of(m, '.', '.', 0);
    let ds = m.take(dot as int) + (if dot < m.len() {
        m.skip((dot + 1) as int)
    } else {
        Seq::empty()
    });
    assert(ds[0] == s[0]);
}

/// A text that writes a finite number above zero reads as a finite number that is not negative.
pub proof fn a_positive_number_reads_as_finite(s: Seq<char>)
    requires
        writes_positive(s),
    ensures
        amount_of(s) matches Some(Num::Finite(v)) && v >= 0,
        positive_of(s) matches Some(m) && m > 0,
{
    let body = unsigned(s).1;
    reveal_strlit("inf");
    reveal_strlit("infinity");
    reveal_strlit("nan");
    if is_word(body, "inf"@) || is_word(body, "infinity"@) || is_word(body, "nan"@) {
        assert(lower(body[0]) == 'i' || lower(body[0]) == 'n');
        lemma_words_are_not_decimal(body);
    }
}

/// Reads a number that has to be finite and above zero.
pub fn read_positive(s: &[char]) -> (r: Option<Micros>)
    ensures
        r == positive_of(s@),
        r matches Some(m) ==> m > 0,
{
    if !is_positive(s) {
        return None;
    }
    match read_amount(s) {
        Some(Num::Finite(m)) => Some(
            if m > 0 {
                m
            } else {
                1
            },
        ),
        _ => None,
    }
}

/// The natural number that `s` writes: digits, after a `+` if there is one.
pub open spec fn natural_of(s: Seq<char>) -> Option<nat> {
    let ds = if s.len() > 0 && s[0] == '+' {
        s.skip(1)
    } else {
        s
    };
    if ds.len() > 0 && all_digits(ds) {
        Some(prefix_value(ds, ds.len()))
    } else {
        None
    }
}

/// The integer that `s` writes: digits, after a `-` if there is one.
pub open spec fn integer_of(s: Seq<char>) -> Option<int> {
    let neg = s.len() > 0 && s[0] == '-';
    let ds = if neg {
        s.skip(1)
    } else {
        s
    };
    if ds.len() > 0 && all_digits(ds) {
        let v = prefix_value(ds, ds.len()) as int;
        Some(
            if neg {
                -v
            } else {
                v
            },
        )
    } else {
        None
    }
}

/// The number that the digits `ds` write, or `None` past 64 bits.
fn read_digits(ds: &[char]) -> (r: Option<u64>)
    requires
        all_digits(ds@),
    ensures
        match r {
            Some(v) => v == prefix_value(ds@, ds@.len()),
            None => prefix_value(ds@, ds@.len()) > u64::MAX,
        },
{
    let mut acc: u128 = 0;
    let mut i: usize = 0;
    while i < ds.len()
        invariant
            i <= ds@.len(),
            all_digits(ds@),
            acc <= u64::MAX,
            acc == prefix_value(ds@, i as nat),
        decreases ds@.len() - i,
    {
        acc = acc * 10 + digit_of(ds[i]) as u128;
        i = i + 1;
        if acc > u64::MAX as u128 {
            proof {
                lemma_prefix_grows(ds@, i as nat, ds@.len());
            }
            return None;
        }
    }
    Some(acc as u64)
}

/// Reads a natural number that fits 64 bits.
pub fn read_u64(s: &[char]) -> (r: Option<u64>)
    ensures
        match natural_of(s@) {
            Some(v) if v <= u64::MAX => r == Some(v as u64),
            _ => r is None,
        },
{
    let from: usize = if s.len() > 0 && s[0] == '+' {
        1
    } else {
        0
    };
    let ds = slice_subrange(s, from, s.len());
    assert(ds@ =~= if from == 1 {
        s@.skip(1)
    } else {
        s@
    });
    if ds.len() == 0 || !digits_only(ds) {
        return None;
    }
    read_digits(ds)
}

/// Reads an integer that fits 64 bits.
pub fn read_i64(s: &[char]) -> (r: Option<i64>)
    ensures
        match integer_of(s@) {
            Some(v) if i64::MIN <= v <= i64::MAX => r == Some(v as i64),
            _ => r is None,
        },
{
    let neg = s.len() > 0 && s[0] == '-';
    let from: usize = if neg {
        1
    } else {
        0
    };
    let ds = slice_subrange(s, from, s.len());
    assert(ds@ =~= if neg {
        s@.skip(1)
    } else {
        s@
    });
    if ds.len() == 0 || !digits_only(ds) {
        return None;
    }
    match read_digits(ds) {
        None => None,
        Some(m) => {
            let v: i128 = if neg {
                -(m as i128)
            } else {
                m as i128
            };
            if v < i64::MIN as i128 || v > i64::MAX as i128 {
                None
            } else {
                Some(v as i64)
            }
        },
    }
}

} // verus!
