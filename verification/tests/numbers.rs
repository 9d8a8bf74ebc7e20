use quotaline::num::{
    is_positive, push_fixed, read_amount, read_i64, read_number, read_positive, read_u64, Num,
};

fn number(s: &str) -> Option<Num> {
    let chars: Vec<char> = s.chars().collect();
    read_number(&chars)
}

fn amount(s: &str) -> Option<Num> {
    let chars: Vec<char> = s.chars().collect();
    read_amount(&chars)
}

fn fixed(v: i64, d: u8) -> String {
    let mut s = String::new();
    push_fixed(&mut s, v, d);
    s
}

#[test]
fn decimal_notation() {
    assert_eq!(number("12.5"), Some(Num::Finite(12_500_000)));
    assert_eq!(number("+.5"), Some(Num::Finite(500_000)));
    assert_eq!(number("5."), Some(Num::Finite(5_000_000)));
    assert_eq!(number("-1.25e-2"), Some(Num::Finite(-12_500)));
    assert_eq!(number("1E3"), Some(Num::Finite(1_000_000_000)));
    for bad in ["", ".", "-", "1e", "1e+", "1.2.3", " 1", "1 ", "0x1", "e5", "infinit"] {
        assert_eq!(number(bad), None, "{bad:?}");
    }
}

#[test]
fn the_seventh_decimal_rounds_the_sixth() {
    assert_eq!(amount("0.0000004"), Some(Num::Finite(0)));
    assert_eq!(amount("0.0000005"), Some(Num::Finite(1)));
    assert_eq!(amount("-0.0000005"), Some(Num::Finite(-1)));
    assert_eq!(amount("5e-7"), Some(Num::Finite(1)));
    assert_eq!(amount("28.189999999999998"), Some(Num::Finite(28_190_000)));
}

#[test]
fn a_cut_number_keeps_its_thresholds() {
    assert_eq!(number("0.0000009"), Some(Num::Finite(0)));
    assert_eq!(number("79.9999999"), Some(Num::Finite(79_999_999)));
    assert_eq!(number("-79.9999999"), Some(Num::Finite(-79_999_999)));
    for s in ["79.9999999", "80", "80.0000001", "79.99999999999999", "0.8e2", "8e1", "799e-1"] {
        let x: f64 = s.parse().unwrap();
        assert_eq!(number(s).unwrap().is_at_least(80_000_000), x >= 80.0, "{s}");
    }
}

#[test]
fn sign_and_range_are_those_of_a_double() {
    let long_half = format!("2.4703282292062327{}1e-324", "0".repeat(900));
    let texts = [
        "1e-7", "0.0000001", "1e-323", "5e-324", "3e-324", "2.5e-324", "2.4703282292062328e-324",
        "2.47032822920623272e-324", "2.4703282292062327e-324", "2e-324", "1e-324", "1e-400",
        "1e-99999999999999999999999999999999999", "0", "0.0", "-1e-7", "-5", "-0", "1", "+1e-7",
        "1e308", "1.7976931348623157e308", "1.7976931348623158e308", "1.797693134862315807e308",
        "1.797693134862315808e308", "1.8e308", "2e308", "1e309", "17976931348623157e292",
        "179769313486231580e291", "179769313486231581e291", "1e99999999999999999999999999999999999",
        "inf", "-inf", "nan", "infinity", "0e999", "0.00001e313", "00000000002e308",
        long_half.as_str(),
    ];
    for s in texts {
        let x: f64 = s.parse().unwrap();
        let chars: Vec<char> = s.chars().collect();
        assert_eq!(is_positive(&chars), x.is_finite() && x > 0.0, "{s}");
        assert_eq!(number(s).unwrap().finite().is_some(), x.is_finite(), "{s}");
        assert_eq!(amount(s).unwrap().finite().is_some(), x.is_finite(), "{s}");
        assert_eq!(read_positive(&chars).is_some(), x.is_finite() && x > 0.0, "{s}");
    }
    assert!(!is_positive(&['x']) && !is_positive(&[]));
    // The half of the least double, written in full and a last digit more.
    let half: String = format!("{:.1075}", f64::from_bits(1) / 2.0 + 0.0);
    assert!(!is_positive(&half.chars().collect::<Vec<char>>()));
}

#[test]
fn a_positive_number_never_reads_as_nothing() {
    let positive = |s: &str| read_positive(&s.chars().collect::<Vec<char>>());
    assert_eq!(positive("1e-7"), Some(1));
    assert_eq!(positive("1e-300"), Some(1));
    assert_eq!(positive("0.0000015"), Some(2));
    assert_eq!(positive("50"), Some(50_000_000));
    assert_eq!(positive("1e300"), Some(i64::MAX));
    assert_eq!(positive("0"), None);
    assert_eq!(positive("2e308"), None);
}

#[test]
fn what_is_too_large_is_held_at_the_end_of_the_range() {
    assert_eq!(number("1e13"), Some(Num::Finite(i64::MAX)));
    assert_eq!(number("-1e300"), Some(Num::Finite(-i64::MAX)));
    assert_eq!(number("1e309"), Some(Num::PosInf));
    assert_eq!(number("-1e99999999999999999999999999999999999999999"), Some(Num::NegInf));
    assert_eq!(number("1e-99999999999999999999999999999999999999999"), Some(Num::Finite(0)));
    assert_eq!(number("0e999"), Some(Num::Finite(0)));
}

#[test]
fn words_for_what_is_not_finite() {
    assert_eq!(number("inf"), Some(Num::PosInf));
    assert_eq!(number("-INFINITY"), Some(Num::NegInf));
    assert_eq!(number("nAn"), Some(Num::NaN));
}

#[test]
fn whole_numbers_that_fit() {
    let u = |s: &str| read_u64(&s.chars().collect::<Vec<char>>());
    let i = |s: &str| read_i64(&s.chars().collect::<Vec<char>>());
    assert_eq!(u("18446744073709551615"), Some(u64::MAX));
    assert_eq!(u("18446744073709551616"), None);
    assert_eq!(u("+7"), Some(7));
    assert_eq!(u("-7"), None);
    assert_eq!(u(""), None);
    assert_eq!(i("-9223372036854775808"), Some(i64::MIN));
    assert_eq!(i("9223372036854775808"), None);
    assert_eq!(i("+7"), None);
}

#[test]
fn fixed_notation_rounds_halves_to_even() {
    assert_eq!(fixed(12_345_678, 2), "12.35");
    assert_eq!(fixed(125_000, 2), "0.12");
    assert_eq!(fixed(135_000, 2), "0.14");
    assert_eq!(fixed(-1_500_000, 0), "-2");
    assert_eq!(fixed(2_500_000, 0), "2");
    assert_eq!(fixed(30_000_000, 1), "30.0");
    assert_eq!(fixed(5_000, 3), "0.005");
    // A half that no double holds goes to the side its double lies on.
    assert_eq!(fixed(1_015_000, 2), "1.01");
    assert_eq!(fixed(1_025_000, 2), "1.02");
    assert_eq!(fixed(50_000, 1), "0.1");
    assert_eq!(fixed(150_000, 1), "0.1");
}

#[test]
fn fixed_notation_is_that_of_the_nearest_double() {
    let mut v: i64 = 1;
    for i in 0..20_000 {
        // Halves of every place, and values all over the range.
        for x in [i * 500, i * 5_000 + 5, v, -v] {
            for d in 0..6 {
                let expected = format!("{:.*}", d as usize, x as f64 / 1e6);
                let expected = if x == 0 { expected.replace('-', "") } else { expected };
                assert_eq!(fixed(x, d), expected, "{x} {d}");
            }
        }
        v = (v.wrapping_mul(6_364_136_223_846_793_005).wrapping_add(12_345)) >> 11;
    }
}

#[test]
fn rounding_and_truncating_whole_units() {
    assert_eq!(Num::Finite(1_500_000).round(), 2);
    assert_eq!(Num::Finite(-1_500_000).round(), -2);
    assert_eq!(Num::Finite(1_499_999).round(), 1);
    assert_eq!(Num::Finite(-1_999_999).trunc(), -1);
    assert_eq!(Num::PosInf.round(), i64::MAX);
    assert_eq!(Num::NegInf.trunc(), i64::MIN);
    assert_eq!(Num::NaN.round(), 0);
}
