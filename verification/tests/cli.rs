use quotaline::cli::{flag_f64, flag_u64, flag_value, refresh_secs, report_window};
use quotaline::num::Num;

fn args(line: &str) -> Vec<String> {
    line.split(' ').map(|s| s.to_string()).collect()
}

#[test]
fn a_flag_takes_the_argument_after_it() {
    let a = args("quotaline report --window 60 --window 5");
    assert_eq!(flag_value(&a, "--window"), Some("60"));
    assert_eq!(flag_value(&a, "--refresh"), None);
    assert_eq!(flag_value(&args("quotaline report --window"), "--window"), None);
    assert_eq!(flag_value(&[], "--window"), None);
}

#[test]
fn flags_read_as_numbers() {
    assert_eq!(
        flag_f64(&args("q --window 1.5"), "--window"),
        Some(Num::Finite(1_500_000))
    );
    assert_eq!(flag_f64(&args("q --window x"), "--window"), None);
    assert_eq!(flag_u64(&args("q --refresh 30"), "--refresh"), Some(30));
    assert_eq!(flag_u64(&args("q --refresh -1"), "--refresh"), None);
    assert_eq!(flag_u64(&args("q --refresh 1.5"), "--refresh"), None);
}

#[test]
fn a_window_that_is_not_positive_is_the_default() {
    assert_eq!(report_window(&args("q report --window 60")), 60_000_000);
    assert_eq!(report_window(&args("q report --window 1e-7")), 1);
    for odd in ["0", "-5", "inf", "2e308", "nan", "soon", ""] {
        assert_eq!(report_window(&args(&format!("q report --window {odd}"))), 120_000_000);
    }
    assert_eq!(report_window(&args("q report")), 120_000_000);
}

#[test]
fn the_refresh_interval_defaults_to_ten_seconds() {
    assert_eq!(refresh_secs(&args("q install")), 10);
    assert_eq!(refresh_secs(&args("q install --refresh 3")), 3);
    assert_eq!(refresh_secs(&args("q install --refresh often")), 10);
}
