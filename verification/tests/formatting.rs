use quotaline::fmt::{
    color_for, fmt_clock, fmt_clock_parts, fmt_dur, fmt_rate, fmt_tokens, fmt_usd, fmt_usd_rate,
    group_thousands, suffix_pair, AMBER, DIM, GRAY, GREEN, RED, RESET,
};
use quotaline::num::Num;

fn micros(x: f64) -> i64 {
    (x * 1e6).round() as i64
}

fn num(x: f64) -> Num {
    Num::Finite(micros(x))
}

#[test]
fn durations() {
    assert_eq!(fmt_dur(0), "now");
    assert_eq!(fmt_dur(-5), "now");
    assert_eq!(fmt_dur(59), "<1m");
    assert_eq!(fmt_dur(60), "1m");
    assert_eq!(fmt_dur(53 * 60), "53m");
    assert_eq!(fmt_dur(3600), "1h");
    assert_eq!(fmt_dur(2 * 3600 + 5 * 60), "2h05m");
    assert_eq!(fmt_dur(6 * 86_400 + 3 * 3600), "6d3h");
    assert_eq!(fmt_dur(2 * 86_400), "2d");
}

#[test]
fn durations_drop_what_is_below_their_two_units() {
    assert_eq!(fmt_dur(86_400 + 59 * 60), "1d");
    assert_eq!(fmt_dur(3600 + 59), "1h");
    assert_eq!(fmt_dur(i64::MIN), "now");
    assert_eq!(fmt_dur(i64::MAX), "106751991167300d15h");
}

#[test]
fn clock_parts() {
    assert_eq!(fmt_clock_parts(20, 50, 3), "8:50pm (Wed)");
    assert_eq!(fmt_clock_parts(0, 5, 3), "12:05am (Wed)"); // midnight → 12am
    assert_eq!(fmt_clock_parts(12, 0, 1), "12:00pm (Mon)"); // noon → 12pm
    assert_eq!(fmt_clock_parts(13, 9, 0), "1:09pm (Sun)");
    assert_eq!(fmt_clock_parts(23, 59, 6), "11:59pm (Sat)");
}

#[test]
fn clock_parts_wrap_around_the_day_and_the_week() {
    assert_eq!(fmt_clock_parts(24, 0, 7), "12:00am (Sun)");
    assert_eq!(fmt_clock_parts(-1, 30, -1), "11:30pm (Sat)");
    assert_eq!(fmt_clock_parts(i32::MIN, 0, i32::MIN), "4:00pm (Fri)");
    assert_eq!(fmt_clock_parts(9, -5, 2), "9:-5am (Tue)");
}

#[test]
fn a_clock_needs_a_local_time() {
    assert_eq!(fmt_clock(None), None);
    assert_eq!(fmt_clock(Some((17, 5, 59, 4))), Some("5:05pm (Thu)".to_string()));
}

#[test]
fn rates() {
    assert_eq!(fmt_rate(micros(30.0)), "30");
    assert_eq!(fmt_rate(micros(4.3)), "4.3");
    assert_eq!(fmt_rate(micros(2.0)), "2");
    assert_eq!(fmt_rate(micros(0.0)), "0");
}

#[test]
fn rates_round_to_one_decimal() {
    assert_eq!(fmt_rate(micros(10.04)), "10");
    assert_eq!(fmt_rate(micros(9.96)), "10");
    assert_eq!(fmt_rate(micros(0.25)), "0.2");
    assert_eq!(fmt_rate(micros(0.75)), "0.8");
    assert_eq!(fmt_rate(micros(-4.3)), "-4.3");
    assert_eq!(fmt_rate(micros(0.05)), "0.1");
}

#[test]
fn tokens() {
    assert_eq!(fmt_tokens(num(457_000.0)), "457k");
    assert_eq!(fmt_tokens(num(1_200_000.0)), "1.2M");
    assert_eq!(fmt_tokens(num(512.0)), "512");
}

#[test]
fn tokens_at_the_unit_boundaries() {
    assert_eq!(fmt_tokens(num(999.9)), "999");
    assert_eq!(fmt_tokens(num(1_000.0)), "1k");
    assert_eq!(fmt_tokens(num(999_999.0)), "1000k");
    assert_eq!(fmt_tokens(num(1_000_000.0)), "1.0M");
    assert_eq!(fmt_tokens(num(-2_500.7)), "-2500");
    assert_eq!(fmt_tokens(Num::PosInf), "infM");
    assert_eq!(fmt_tokens(Num::NegInf), "-9223372036854775808");
    assert_eq!(fmt_tokens(Num::NaN), "0");
}

#[test]
fn dollars() {
    assert_eq!(fmt_usd(micros(12.4)), "$12.40");
    assert_eq!(fmt_usd(micros(50.0)), "$50");
    assert_eq!(fmt_usd(micros(1.8125)), "$1.81");
    assert_eq!(fmt_usd(micros(0.004)), "$0");
    assert_eq!(fmt_usd(micros(0.05)), "$0.05");
    assert_eq!(fmt_usd(micros(1.015)), "$1.01");
    assert_eq!(fmt_usd(micros(-3.5)), "$-3.50");
}

#[test]
fn dollar_rates() {
    assert_eq!(fmt_usd_rate(micros(3.2)), "$3.2");
    assert_eq!(fmt_usd_rate(micros(5.0)), "$5");
    assert_eq!(fmt_usd_rate(micros(0.25)), "$0.25");
    assert_eq!(fmt_usd_rate(micros(120.0)), "$120");
    assert_eq!(fmt_usd_rate(micros(0.006)), "$0.01");
}

#[test]
fn thousands() {
    assert_eq!(group_thousands(micros(264_000.0)), "264,000");
    assert_eq!(group_thousands(micros(17_600.0)), "17,600");
    assert_eq!(group_thousands(micros(999.0)), "999");
    assert_eq!(group_thousands(micros(0.0)), "0");
}

#[test]
fn thousands_round_and_carry_the_sign() {
    assert_eq!(group_thousands(micros(1_234_567.5)), "1,234,568");
    assert_eq!(group_thousands(micros(1_000_005.0)), "1,000,005");
    assert_eq!(group_thousands(micros(-1_000.4)), "-1,000");
}

#[test]
fn color_bands() {
    assert_eq!(color_for(None), GRAY);
    assert_eq!(color_for(Some(num(10.0))), GREEN);
    assert_eq!(color_for(Some(num(85.0))), AMBER);
    assert_eq!(color_for(Some(num(95.0))), RED);
}

#[test]
fn color_bands_start_where_they_say() {
    assert_eq!(color_for(Some(num(79.999999))), GREEN);
    assert_eq!(color_for(Some(num(80.0))), AMBER);
    assert_eq!(color_for(Some(num(89.999999))), AMBER);
    assert_eq!(color_for(Some(num(90.0))), RED);
    assert_eq!(color_for(Some(Num::PosInf)), RED);
    assert_eq!(color_for(Some(Num::NaN)), GREEN);
}

#[test]
fn suffixes_are_dim_and_warnings_red() {
    let (plain, colored) = suffix_pair(Some("↑2%/h".to_string()), Some("⚠ cap 3h".to_string()));
    assert_eq!(plain, "↑2%/h  ⚠ cap 3h");
    assert_eq!(colored, format!("{DIM}↑2%/h{RESET}  {RED}⚠ cap 3h{RESET}"));
    assert_eq!(suffix_pair(None, None), (String::new(), String::new()));
}
