//! Laws of reading numbers: what is written in decimal notation reads as what it says.

use vstd::prelude::*;

use crate::double::{halvings, lemma_fits};
use crate::fmt::{tokens_text, usd_text};
use crate::num::{
    all_digits, amount_of, at_least_none, decimal_of, digit_value, doublings, exponent, fixed_text,
    half_even, integer_of, is_digit, is_word, lemma_power_positive, lower, mantissa, natural_of,
    number_of, position_of, pow10, power, prefix_value, range_end, shown, unsigned, Num,
};
use crate::spend::budget_of;
use crate::text::{
    all_white, dec, dec_int, dec_places, digit_char, is_white, trimming_takes_whitespace_off_both_ends,
};

verus! {

proof fn lemma_digit(d: nat)
    requires
        d < 10,
    ensures
        is_digit(digit_char(d)),
        digit_value(digit_char(d)) == d,
        digit_char(d) >= '5' <==> d >= 5,
{
}

proof fn lemma_prefix_of(a: Seq<char>, b: Seq<char>, n: nat)
    requires
        n <= a.len(),
    ensures
        prefix_value(a + b, n) == prefix_value(a, n),
    decreases n,
{
    if n > 0 {
        lemma_prefix_of(a, b, (n - 1) as nat);
        assert((a + b)[n - 1] == a[n - 1]);
    }
}

proof fn lemma_dec(n: nat)
    ensures
        dec(n).len() > 0,
        all_digits(dec(n)),
        prefix_value(dec(n), dec(n).len()) == n,
    decreases n,
{
    lemma_digit(n % 10);
    if n < 10 {
        reveal_with_fuel(prefix_value, 2);
    } else {
        let head = dec(n / 10);
        lemma_dec(n / 10);
        let last = digit_char(n % 10);
        assert(head.push(last) =~= head + seq![last]);
        lemma_prefix_of(head, seq![last], head.len());
        assert forall|i: int| 0 <= i < dec(n).len() implies is_digit(#[trigger] dec(n)[i]) by {
            if i < head.len() {
                assert(dec(n)[i] == head[i]);
            }
        }
    }
}

proof fn lemma_places(f: nat, k: nat)
    ensures
        dec_places(f, k).len() == k,
        all_digits(dec_places(f, k)),
    decreases k,
{
    lemma_digit(f % 10);
    if k > 0 {
        let head = dec_places(f / 10, (k - 1) as nat);
        lemma_places(f / 10, (k - 1) as nat);
        assert forall|i: int| 0 <= i < dec_places(f, k).len() implies is_digit(
            #[trigger] dec_places(f, k)[i],
        ) by {
            if i < head.len() {
                assert(dec_places(f, k)[i] == head[i]);
            }
        }
    }
}

/// Digits followed by the places of a fraction write both.
proof fn lemma_joined_places(a: Seq<char>, f: nat, k: nat)
    requires
        f < pow10(k),
    ensures
        prefix_value(a + dec_places(f, k), a.len() + k) == prefix_value(a, a.len()) * pow10(k) + f,
    decreases k,
{
    lemma_places(f, k);
    if k == 0 {
        assert(a + dec_places(f, k) =~= a);
        assert(prefix_value(a, a.len()) * 1 == prefix_value(a, a.len()));
    } else {
        let j = (k - 1) as nat;
        let head = dec_places(f / 10, j);
        let last = digit_char(f % 10);
        lemma_digit(f % 10);
        lemma_joined_places(a, f / 10, j);
        let s = a + dec_places(f, k);
        assert(s =~= (a + head) + seq![last]);
        lemma_prefix_of(a + head, seq![last], a.len() + j);
        let v = prefix_value(a, a.len());
        assert((v * pow10(j) + f / 10) * 10 + f % 10 == v * (10 * pow10(j)) + f)
            by (nonlinear_arith);
    }
}

proof fn lemma_zeros_behind(a: Seq<char>, k: nat)
    ensures
        prefix_value(a, a.len() + k) == prefix_value(a, a.len()) * pow10(k),
    decreases k,
{
    let v = prefix_value(a, a.len());
    if k == 0 {
        assert(v * 1 == v);
    } else {
        let j = (k - 1) as nat;
        lemma_zeros_behind(a, j);
        assert((v * pow10(j)) * 10 == v * (10 * pow10(j))) by (nonlinear_arith);
    }
}

proof fn lemma_not_found(s: Seq<char>, a: char, b: char, from: nat, n: nat)
    requires
        from <= n <= s.len(),
        forall|i: int| from <= i < n ==> (#[trigger] s[i]) != a && s[i] != b,
        n < s.len() ==> s[n as int] == a || s[n as int] == b,
    ensures
        position_of(s, a, b, from) == n,
    decreases n - from,
{
    if from < n {
        assert(s[from as int] != a);
        lemma_not_found(s, a, b, from + 1, n);
    }
}

proof fn lemma_no_word(s: Seq<char>)
    requires
        s.len() > 0,
        is_digit(s[0]),
    ensures
        !is_word(s, "inf"@),
        !is_word(s, "infinity"@),
        !is_word(s, "nan"@),
        unsigned(s) == (false, s),
{
    reveal_strlit("inf");
    reveal_strlit("infinity");
    reveal_strlit("nan");
    if is_word(s, "inf"@) || is_word(s, "infinity"@) || is_word(s, "nan"@) {
        assert(lower(s[0]) == s[0]);
    }
}

proof fn lemma_in_range(v: nat)
    requires
        v <= 18_000_000_000_000_000,
    ensures
        v < range_end(),
{
    let p = power(2, 970);
    lemma_power_positive(2, 970);
    assert(18_014_398_509_481_983 * p >= 18_014_398_509_481_983) by (nonlinear_arith)
        requires
            p > 0,
    ;
}

proof fn lemma_pow10_six()
    ensures
        pow10(6) == 1_000_000,
        pow10(7) == 10_000_000,
        pow10(1) == 10,
{
    reveal_with_fuel(pow10, 8);
}

/// A whole number in decimal notation reads as that number, and with a minus before it as the one
/// below zero.
pub proof fn a_whole_number_reads_as_written(n: nat)
    requires
        n <= 9_000_000_000_000,
    ensures
        number_of(dec(n)) == Some(Num::Finite((n * 1_000_000) as i64)),
        amount_of(dec(n)) == Some(Num::Finite((n * 1_000_000) as i64)),
        number_of(seq!['-'] + dec(n)) == Some(Num::Finite((-(n * 1_000_000)) as i64)),
        natural_of(dec(n)) == Some(n),
        natural_of(seq!['+'] + dec(n)) == Some(n),
        integer_of(dec(n)) == Some(n as int),
        integer_of(seq!['-'] + dec(n)) == Some(-(n as int)),
{
    let s = dec(n);
    lemma_dec(n);
    lemma_pow10_six();
    assert(is_digit(s[0]));
    lemma_no_word(s);
    let none = Seq::<char>::empty();
    lemma_whole_decimal(s);
    lemma_zeros_behind(s, 6);
    lemma_in_range(n);
    let negative = seq!['-'] + s;
    assert(negative.skip(1) =~= s);
    let positive = seq!['+'] + s;
    assert(positive.skip(1) =~= s);
}

proof fn lemma_whole_decimal(s: Seq<char>)
    requires
        s.len() > 0,
        all_digits(s),
    ensures
        decimal_of(s) == Some((s, s.len() as int)),
        mantissa(s) == Some((s, s.len())),
{
    assert forall|i: int| 0 <= i < s.len() implies (#[trigger] s[i]) != 'e' && s[i] != 'E' && s[i]
        != '.' by {
        assert(is_digit(s[i]));
    }
    lemma_not_found(s, 'e', 'E', 0, s.len());
    lemma_not_found(s, '.', '.', 0, s.len());
    assert(s.take(s.len() as int) =~= s);
    assert(s + Seq::<char>::empty() =~= s);
}

proof fn lemma_pointed(a: Seq<char>, b: Seq<char>)
    requires
        a.len() > 0,
        all_digits(a),
        all_digits(b),
    ensures
        decimal_of(a + seq!['.'] + b) == Some((a + b, a.len() as int)),
{
    let s = a + seq!['.'] + b;
    assert forall|i: int| 0 <= i < s.len() implies (#[trigger] s[i]) != 'e' && s[i] != 'E' by {
        if i < a.len() {
            assert(s[i] == a[i] && is_digit(a[i]));
        } else if i > a.len() {
            assert(s[i] == b[i - a.len() - 1] && is_digit(b[i - a.len() - 1]));
        }
    }
    lemma_not_found(s, 'e', 'E', 0, s.len());
    assert(s.take(s.len() as int) =~= s);
    assert forall|i: int| 0 <= i < a.len() implies (#[trigger] s[i]) != '.' by {
        assert(s[i] == a[i] && is_digit(a[i]));
    }
    assert(s[a.len() as int] == '.');
    lemma_not_found(s, '.', '.', 0, a.len());
    assert(s.take(a.len() as int) =~= a);
    assert(s.skip(a.len() as int + 1) =~= b);
    assert forall|i: int| 0 <= i < (a + b).len() implies is_digit(#[trigger] (a + b)[i]) by {
        if i < a.len() {
            assert((a + b)[i] == a[i]);
        } else {
            assert((a + b)[i] == b[i - a.len()]);
        }
    }
}

/// A number with six places behind the point reads as its whole part and its millionths. A seventh
/// place is dropped, or, where the number is an amount of money, rounds it to the nearest.
pub proof fn a_decimal_number_reads_as_written(n: nat, f: nat, d: nat)
    requires
        n <= 9_000_000_000_000,
        f < 1_000_000,
        d < 10,
    ensures
        number_of(dec(n) + seq!['.'] + dec_places(f, 6)) == Some(
            Num::Finite((n * 1_000_000 + f) as i64),
        ),
        amount_of(dec(n) + seq!['.'] + dec_places(f, 6)) == Some(
            Num::Finite((n * 1_000_000 + f) as i64),
        ),
        number_of(dec(n) + seq!['.'] + dec_places(10 * f + d, 7)) == Some(
            Num::Finite((n * 1_000_000 + f) as i64),
        ),
        amount_of(dec(n) + seq!['.'] + dec_places(10 * f + d, 7)) == Some(
            Num::Finite(
                (n * 1_000_000 + f + (if d >= 5 {
                    1int
                } else {
                    0
                })) as i64,
            ),
        ),
{
    lemma_dec(n);
    lemma_pow10_six();
    lemma_places(f, 6);
    lemma_in_range(n);
    let a = dec(n);
    let b = dec_places(f, 6);
    assert(is_digit(a[0]));
    let s = a + seq!['.'] + b;
    assert(s[0] == a[0]);
    lemma_no_word(s);
    lemma_pointed(a, b);
    lemma_joined_places(a, f, 6);
    lemma_prefix_of(a, b, a.len());
    let g = 10 * f + d;
    let c = dec_places(g, 7);
    lemma_places(g, 7);
    let r = a + seq!['.'] + c;
    assert(r[0] == a[0]);
    lemma_no_word(r);
    lemma_pointed(a, c);
    lemma_prefix_of(a, c, a.len());
    // The first six of seven places are those of the millionths, and the seventh is `d`.
    assert(g / 10 == f && g % 10 == d);
    assert(c == dec_places(f, 6).push(digit_char(d)));
    assert(a + c =~= (a + b) + seq![digit_char(d)]);
    lemma_prefix_of(a + b, seq![digit_char(d)], a.len() + 6);
    lemma_digit(d);
    assert((a + c)[a.len() as int + 6] == digit_char(d));
}

proof fn lemma_raised(a: Seq<char>, x: Seq<char>, k: int)
    requires
        a.len() > 0,
        all_digits(a),
        exponent(x) == Some(k),
    ensures
        decimal_of(a + seq!['e'] + x) == Some((a, a.len() + k)),
{
    let s = a + seq!['e'] + x;
    assert forall|i: int| 0 <= i < a.len() implies (#[trigger] s[i]) != 'e' && s[i] != 'E' by {
        assert(s[i] == a[i] && is_digit(a[i]));
    }
    assert(s[a.len() as int] == 'e');
    lemma_not_found(s, 'e', 'E', 0, a.len());
    assert(s.take(a.len() as int) =~= a);
    assert(s.skip(a.len() as int + 1) =~= x);
    lemma_whole_decimal(a);
}

/// A power of ten behind a number moves its point: up with a power above zero, and down with one below
/// it, where what is finer than a millionth is dropped.
pub proof fn a_power_of_ten_moves_the_point(n: nat, k: nat)
    requires
        n * pow10(k) <= 9_000_000_000_000,
    ensures
        number_of(dec(n) + seq!['e'] + dec(k)) == Some(
            Num::Finite((n * pow10(k) * 1_000_000) as i64),
        ),
        k <= 6 ==> number_of(dec(n) + seq!['e'] + (seq!['-'] + dec(k))) == Some(
            Num::Finite((n * pow10((6 - k) as nat)) as i64),
        ),
{
    lemma_dec(n);
    lemma_dec(k);
    lemma_pow10_six();
    let (a, x) = (dec(n), dec(k));
    assert(is_digit(a[0]) && is_digit(x[0]));
    lemma_no_word(x);
    assert(exponent(x) == Some(k as int));
    lemma_raised(a, x, k as int);
    let s = a + seq!['e'] + x;
    assert(s[0] == a[0]);
    lemma_no_word(s);
    lemma_zeros_behind(a, k);
    lemma_zeros_behind(a, k + 6);
    lemma_pow10_add(k, 6);
    let p = pow10(k);
    assert(n * (p * 1_000_000) == (n * p) * 1_000_000) by (nonlinear_arith);
    lemma_in_range(n * p);
    if k <= 6 {
        let y = seq!['-'] + x;
        assert(y.skip(1) =~= x);
        assert(exponent(y) == Some(-(k as int)));
        lemma_raised(a, y, -(k as int));
        let r = a + seq!['e'] + y;
        assert(r[0] == a[0]);
        lemma_no_word(r);
        lemma_zeros_behind(a, (6 - k) as nat);
        lemma_shorter(a, at_least_none(a.len() - k));
        let q = pow10((6 - k) as nat);
        lemma_pow10_up_to_six((6 - k) as nat);
        assert(p >= 1) by {
            lemma_pow10_positive(k);
        }
        assert(n <= n * p) by (nonlinear_arith)
            requires
                p >= 1,
        ;
        lemma_in_range(n);
        assert(n * q <= 9_000_000_000_000 * 1_000_000) by (nonlinear_arith)
            requires
                n <= 9_000_000_000_000,
                q <= 1_000_000,
        ;
    }
}

proof fn lemma_pow10_add(a: nat, b: nat)
    ensures
        pow10(a + b) == pow10(a) * pow10(b),
    decreases b,
{
    if b == 0 {
        assert(pow10(a) * 1 == pow10(a));
    } else {
        let j = (b - 1) as nat;
        lemma_pow10_add(a, j);
        assert(10 * (pow10(a) * pow10(j)) == pow10(a) * (10 * pow10(j))) by (nonlinear_arith);
    }
}

proof fn lemma_pow10_positive(k: nat)
    ensures
        pow10(k) >= 1,
    decreases k,
{
    if k > 0 {
        lemma_pow10_positive((k - 1) as nat);
    }
}

proof fn lemma_pow10_up_to_six(k: nat)
    requires
        k <= 6,
    ensures
        pow10(k) <= 1_000_000,
{
    reveal_with_fuel(pow10, 7);
}

/// Fewer digits write no more.
proof fn lemma_shorter(ds: Seq<char>, n: nat)
    requires
        n <= ds.len(),
        all_digits(ds),
    ensures
        prefix_value(ds, n) <= prefix_value(ds, ds.len()),
    decreases ds.len() - n,
{
    if n < ds.len() {
        lemma_shorter(ds, n + 1);
    }
}

/// What is written for an integer reads as that integer.
pub proof fn an_integer_reads_as_written(v: int)
    requires
        -9_000_000_000_000 <= v <= 9_000_000_000_000,
    ensures
        integer_of(dec_int(v)) == Some(v),
        number_of(dec_int(v)) == Some(Num::Finite((v * 1_000_000) as i64)),
{
    if v < 0 {
        a_whole_number_reads_as_written((-v) as nat);
    } else {
        a_whole_number_reads_as_written(v as nat);
    }
}

proof fn lemma_fives_are_fewer(k: nat)
    ensures
        power(5, k) <= pow10(k),
        k > 0 ==> power(5, k) < pow10(k),
        power(5, k) > 0,
    decreases k,
{
    if k > 0 {
        lemma_fives_are_fewer((k - 1) as nat);
    }
}

/// A budget is a plain number above zero, whatever whitespace stands around it. Zero is none, and
/// neither is a number behind a dollar sign.
pub proof fn a_budget_is_a_plain_number(a: Seq<char>, n: nat, b: Seq<char>)
    requires
        all_white(a),
        all_white(b),
        n <= 9_000_000_000_000,
    ensures
        n > 0 ==> budget_of(a + dec(n) + b) == Some((n * 1_000_000) as i64),
        n == 0 ==> budget_of(a + dec(n) + b) is None,
        budget_of(a + (seq!['$'] + dec(n)) + b) is None,
        budget_of(a + (seq!['-'] + dec(n)) + b) is None,
{
    let s = dec(n);
    lemma_dec(n);
    assert forall|i: int| 0 <= i < s.len() implies !is_white(#[trigger] s[i]) by {
        assert(is_digit(s[i]));
    }
    assert(is_digit(s[0]) && s.last() == s[s.len() - 1]);
    trimming_takes_whitespace_off_both_ends(a, s, b);
    a_whole_number_reads_as_written(n);
    lemma_no_word(s);
    lemma_whole_decimal(s);
    lemma_zeros_behind(s, 1075);
    lemma_fives_are_fewer(1075);
    let p = pow10(1075);
    if n > 0 {
        assert(n * p >= p) by (nonlinear_arith)
            requires
                n >= 1,
        ;
    } else {
        assert(0nat * p == 0) by (nonlinear_arith);
    }
    lemma_zeros_behind(s, 0);
    lemma_in_range(n);
    let priced = seq!['$'] + s;
    assert(priced.last() == s.last());
    trimming_takes_whitespace_off_both_ends(a, priced, b);
    lemma_priced(s);
    let negative = seq!['-'] + s;
    assert(negative.last() == s.last());
    trimming_takes_whitespace_off_both_ends(a, negative, b);
    assert(negative.skip(1) =~= s);
}

proof fn lemma_priced(s: Seq<char>)
    requires
        s.len() > 0,
        all_digits(s),
    ensures
        amount_of(seq!['$'] + s) is None,
{
    let t = seq!['$'] + s;
    reveal_strlit("inf");
    reveal_strlit("infinity");
    reveal_strlit("nan");
    if is_word(t, "inf"@) || is_word(t, "infinity"@) || is_word(t, "nan"@) {
        assert(lower(t[0]) == '$');
    }
    assert forall|i: int| 0 <= i < t.len() implies (#[trigger] t[i]) != 'e' && t[i] != 'E' && t[i]
        != '.' by {
        if i > 0 {
            assert(t[i] == s[i - 1] && is_digit(s[i - 1]));
        }
    }
    lemma_not_found(t, 'e', 'E', 0, t.len());
    lemma_not_found(t, '.', '.', 0, t.len());
    assert(t.take(t.len() as int) =~= t);
    assert(t + Seq::<char>::empty() =~= t);
    assert(!is_digit(t[0]));
}

// ---------------------------------------------------------------------------------------
// Showing numbers
// ---------------------------------------------------------------------------------------

proof fn lemma_near_enough(a: nat, b: nat, q: nat)
    requires
        b > 0,
        2 * a < 2 * (q * b) + b,
        2 * a + b > 2 * (q * b),
    ensures
        half_even(a, b) == q,
{
    let (x, r) = ((a / b) as int, (a % b) as int);
    vstd::arithmetic::div_mod::lemma_fundamental_div_mod(a as int, b as int);
    assert(b * x == x * b) by (nonlinear_arith);
    if a >= q * b {
        vstd::arithmetic::div_mod::lemma_fundamental_div_mod_converse(
            a as int,
            b as int,
            q as int,
            (a - q * b) as int,
        );
    } else {
        let p = q - 1;
        assert(q > 0) by (nonlinear_arith)
            requires
                a < q * b,
                a >= 0,
        ;
        assert(p * b == q * b - b) by (nonlinear_arith)
            requires
                p == q - 1,
        ;
        vstd::arithmetic::div_mod::lemma_fundamental_div_mod_converse(
            a as int,
            b as int,
            p,
            a - p * b,
        );
    }
}

proof fn lemma_half_even_is_near(a: nat, b: nat)
    requires
        b > 0,
    ensures
        2 * (half_even(a, b) * b) <= 2 * a + b,
        2 * (half_even(a, b) * b) + b >= 2 * a,
{
    let q = a / b;
    vstd::arithmetic::div_mod::lemma_fundamental_div_mod(a as int, b as int);
    assert(b * q == q * b && (q + 1) * b == q * b + b) by (nonlinear_arith);
}

proof fn lemma_shown_as_it_is(v: nat, k: nat, d: nat)
    requires
        d <= k,
        d <= 2,
        0 < v <= 9_000_000_000_000 * pow10(d),
    ensures
        shown(v * pow10((k - d) as nat), k, d) == v,
{
    let c = pow10(k);
    let (t, rest) = (pow10(d), pow10((k - d) as nat));
    let m = v * rest;
    lemma_pow10_add((k - d) as nat, d);
    lemma_pow10_positive(k);
    lemma_pow10_positive(d);
    lemma_pow10_positive((k - d) as nat);
    assert(t <= 100) by {
        reveal_with_fuel(pow10, 3);
    }
    assert(m > 0) by (nonlinear_arith)
        requires
            m == v * rest,
            v > 0,
            rest >= 1,
    ;
    assert(m <= 9_000_000_000_000 * c) by (nonlinear_arith)
        requires
            m == v * rest,
            v <= 9_000_000_000_000 * t,
            c == rest * t,
    ;
    lemma_fits(m, c);
    let u = doublings(m, c);
    let p = power(2, u);
    lemma_power_positive(2, u);
    // So small a number has many places below its point.
    assert(p > 100) by {
        if p <= 100 {
            assert(m * p <= (9_000_000_000_000 * c) * 100) by (nonlinear_arith)
                requires
                    m <= 9_000_000_000_000 * c,
                    p <= 100,
            ;
            lemma_no_halvings(m, c);
        }
    }
    let h = half_even(m * p, c);
    lemma_half_even_is_near(m * p, c);
    // The digits lie within half of one of the number, so the places do too.
    let (x, y) = (h * t, v * p);
    assert(m * p == (v * p) * rest) by (nonlinear_arith)
        requires
            m == v * rest,
    ;
    assert(h * c == (h * t) * rest) by (nonlinear_arith)
        requires
            c == rest * t,
    ;
    assert(2 * (x * rest) <= 2 * (y * rest) + rest * t && 2 * (x * rest) + rest * t >= 2 * (y
        * rest));
    assert(2 * x <= 2 * y + t && 2 * x + t >= 2 * y) by (nonlinear_arith)
        requires
            2 * (x * rest) <= 2 * (y * rest) + rest * t,
            2 * (x * rest) + rest * t >= 2 * (y * rest),
            rest >= 1,
    ;
    lemma_near_enough(x, p, v);
}

proof fn lemma_no_halvings(m: nat, c: nat)
    requires
        c > 0,
        0 < m <= 9_000_000_000_000 * c,
    ensures
        m * power(2, doublings(m, c)) >= 4_503_599_627_370_496 * c,
{
    lemma_fits(m, c);
    let w = halvings(m, c);
    assert(w == 0);
    let one = power(2, 0);
    assert(c * one == c) by (nonlinear_arith)
        requires
            one == 1,
    ;
}

/// An amount of whole cents is shown as it is, the cents left out where there are none; a rate of
/// whole tenths, a whole percentage and whole thousands of tokens are too.
pub proof fn an_amount_of_whole_places_is_shown_as_it_is(v: nat)
    requires
        0 < v <= 900_000_000_000,
    ensures
        v % 100 == 0 ==> usd_text((v * 10_000) as int) == "$"@ + dec(v / 100),
        v % 100 != 0 ==> usd_text((v * 10_000) as int) == "$"@ + dec(v / 100) + ("."@ + dec_places(
            v,
            2,
        )),
        fixed_text((v * 100_000) as int, 1) == dec(v / 10) + (seq!['.'] + dec_places(v, 1)),
        fixed_text((v * 1_000_000) as int, 0) == dec(v),
        v < 1_000 ==> tokens_text(Num::Finite((v * 1_000_000_000) as i64)) == dec(v) + "k"@,
        10 <= v <= 9_000_000 ==> tokens_text(Num::Finite((v * 100_000_000_000) as i64)) == dec(
            v / 10,
        ) + (seq!['.'] + dec_places(v, 1)) + "M"@,
{
    let none = Seq::<char>::empty();
    assert(pow10(0) == 1 && pow10(1) == 10 && pow10(2) == 100 && pow10(4) == 10_000 && pow10(5)
        == 100_000 && pow10(6) == 1_000_000 && pow10(9) == 1_000_000_000 && pow10(11)
        == 100_000_000_000) by {
        reveal_with_fuel(pow10, 12);
    }
    lemma_shown_as_it_is(v, 6, 2);
    lemma_shown_as_it_is(v, 6, 1);
    lemma_shown_as_it_is(v, 6, 0);
    lemma_shown_as_it_is(v, 9, 0);
    lemma_shown_as_it_is(v, 12, 1);
    assert(v / 1 == v);
    assert("$"@ + none + dec(v / 100) + none =~= "$"@ + dec(v / 100));
    assert("$"@ + none + dec(v / 100) + ("."@ + dec_places(v, 2)) =~= "$"@ + dec(v / 100) + ("."@
        + dec_places(v, 2)));
    assert(none + (dec(v / 10) + (seq!['.'] + dec_places(v, 1))) =~= dec(v / 10) + (seq!['.']
        + dec_places(v, 1)));
    assert(none + (dec(v) + none) =~= dec(v));
    assert(dec(v) + none =~= dec(v));
}

} // verus!
