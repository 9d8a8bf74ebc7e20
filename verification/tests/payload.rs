use quotaline::fmt::{color_for, AMBER, GREEN, RED};
use quotaline::json::{
    as_f64_loose, f64_at, get_pct, get_reset, i64_at, nested, payload_mode, read_payload, str_at,
    Json, Mode,
};
use quotaline::num::Num;

fn fin(x: f64) -> Option<Num> {
    Some(Num::Finite((x * 1e6).round() as i64))
}

#[test]
fn mode_detection() {
    let sub = read_payload(
        r#"{
            "cost": {"total_cost_usd": 1.5},
            "rate_limits": {"five_hour": {"used_percentage": 11, "resets_at": 1785207000}}
        }"#,
    );
    assert_eq!(payload_mode(&sub), Mode::Subscription);

    // API-key billing: no rate_limits at all, and real cost accrued.
    let api =
        read_payload(r#"{"cost": {"total_cost_usd": 1.8125, "total_duration_ms": 326017}}"#);
    assert_eq!(payload_mode(&api), Mode::ApiKey);

    // Neither (or degenerate) → unknown, the "limits n/a" path.
    assert_eq!(payload_mode(&Json::Null), Mode::Unknown);
    assert_eq!(payload_mode(&read_payload("{}")), Mode::Unknown);
    assert_eq!(
        payload_mode(&read_payload(r#"{"rate_limits": {}, "cost": null}"#)),
        Mode::Unknown
    );
}

#[test]
fn mode_never_mistakes_subscription_for_api_key() {
    // A present-but-empty rate_limits object is a subscription-side transient: it must
    // not classify as ApiKey even with real accumulated (shadow) cost.
    assert_eq!(
        payload_mode(&read_payload(
            r#"{"rate_limits": {}, "cost": {"total_cost_usd": 3.5}}"#
        )),
        Mode::Unknown
    );
    // Wrong-typed rate_limits: still never ApiKey.
    assert_eq!(
        payload_mode(&read_payload(
            r#"{"rate_limits": "x", "cost": {"total_cost_usd": 3.5}}"#
        )),
        Mode::Unknown
    );
    // No rate_limits but zero cost: pre-first-response window for either billing type.
    assert_eq!(
        payload_mode(&read_payload(r#"{"cost": {"total_cost_usd": 0}}"#)),
        Mode::Unknown
    );
    // Non-finite cost (numeric string) must not enter ApiKey mode.
    assert_eq!(
        payload_mode(&read_payload(r#"{"cost": {"total_cost_usd": "inf"}}"#)),
        Mode::Unknown
    );
    // Explicit null rate_limits reads as absent: real cost → ApiKey.
    assert_eq!(
        payload_mode(&read_payload(
            r#"{"rate_limits": null, "cost": {"total_cost_usd": 2.0}}"#
        )),
        Mode::ApiKey
    );
}

#[test]
fn any_finite_cost_above_zero_is_real() {
    let mode = |cost: &str| {
        payload_mode(&read_payload(&format!(
            r#"{{"cost": {{"total_cost_usd": {cost}}}}}"#
        )))
    };
    for real in ["1e-7", "1e-300", "5e-324", "\"1e-7\"", "\" 3 \"", "1e308", "\"1.7e308\""] {
        assert_eq!(mode(real), Mode::ApiKey, "{real}");
    }
    for none in [
        "\"2e308\"", "\"1e309\"", "\"1e-400\"", "\"0e9\"", "-1e-7", "\"-1e-7\"", "0.0", "\"nan\"",
        "\"\"", "true", "[1]",
    ] {
        assert_eq!(mode(none), Mode::Unknown, "{none}");
    }
}

#[test]
fn bands_are_judged_on_the_digits_written() {
    let color = |pct: &str| color_for(as_f64_loose(&read_payload(pct)));
    assert_eq!(color("79.9999999"), GREEN);
    assert_eq!(color("80.0"), AMBER);
    assert_eq!(color("89.99999999"), AMBER);
    assert_eq!(color("90"), RED);
}

#[test]
fn a_payload_that_is_not_json_reads_as_nothing() {
    for raw in ["", "  \n", "{", "nope", "{\"a\":1,}"] {
        assert!(matches!(read_payload(raw), Json::Null), "{raw:?}");
    }
}

#[test]
fn every_kind_of_value_comes_through() {
    let v = read_payload(r#"{"z": [true, null, 1.50, "té"], "a": {"n": -7}, "z2": 1e3}"#);
    let Json::Obj(entries) = &v else {
        panic!("an object");
    };
    let keys: Vec<&str> = entries.iter().map(|e| e.0.as_str()).collect();
    assert_eq!(keys, ["z", "a", "z2"], "keys stay in the order they were written");
    let Some(Json::Arr(items)) = nested(&v, &["z"]) else {
        panic!("an array");
    };
    assert!(matches!(items[0], Json::Bool(true)));
    assert!(matches!(items[1], Json::Null));
    assert!(matches!(&items[2], Json::Num(t) if t == "1.5"));
    assert!(matches!(&items[3], Json::Str(t) if t == "té"));
    assert_eq!(i64_at(&v, &["a", "n"]), Some(-7));
    assert_eq!(f64_at(&v, &["z2"]), fin(1000.0));
}

#[test]
fn a_path_ends_at_what_is_missing_or_null() {
    let v = read_payload(r#"{"a": {"b": null, "c": "x"}, "d": 3}"#);
    assert!(nested(&v, &["a", "b"]).is_none());
    assert!(nested(&v, &["a", "b", "c"]).is_none());
    assert!(nested(&v, &["d", "x"]).is_none());
    assert_eq!(str_at(&v, &["a", "c"]), Some("x"));
    assert_eq!(str_at(&v, &["d"]), None);
}

#[test]
fn numbers_may_be_strings() {
    let num = |raw: &str| as_f64_loose(&read_payload(raw));
    assert_eq!(num("\" 41.5 \""), fin(41.5));
    assert_eq!(num("\"\""), None);
    assert_eq!(num("\"  \""), None);
    assert_eq!(num("\"12a\""), None);
    assert_eq!(num("\"-1e2\""), fin(-100.0));
    assert_eq!(num("\"Infinity\""), Some(Num::PosInf));
    assert_eq!(num("\"-inf\""), Some(Num::NegInf));
    assert_eq!(num("\"NaN\""), Some(Num::NaN));
    assert_eq!(num("true"), None);
    assert_eq!(num("null"), None);
    assert_eq!(num("0.1234567"), Some(Num::Finite(123_456)));
}

#[test]
fn whole_numbers_are_written_without_point_or_exponent() {
    let v = read_payload(r#"{"a": 12, "b": 12.0, "c": "12", "d": 18446744073709551615}"#);
    assert_eq!(i64_at(&v, &["a"]), Some(12));
    assert_eq!(i64_at(&v, &["b"]), None);
    assert_eq!(i64_at(&v, &["c"]), None);
    assert_eq!(i64_at(&v, &["d"]), None);
}

#[test]
fn a_window_is_read_under_any_of_its_names() {
    let w = |raw: &str| {
        let v = read_payload(raw);
        (get_pct(&v), get_reset(&v))
    };
    assert_eq!(w(r#"{"used_percentage": 11, "resets_at": 9000}"#), (fin(11.0), fin(9000.0)));
    assert_eq!(w(r#"{"utilization": "7.5", "reset_at": "42"}"#), (fin(7.5), fin(42.0)));
    assert_eq!(w(r#"{"percent": 3, "resets": 1}"#), (fin(3.0), fin(1.0)));
    // The first name that holds a number decides.
    assert_eq!(
        w(r#"{"used_percentage": null, "utilization": 5, "percent": 9, "resets_at": "soon", "resets": 8}"#),
        (fin(5.0), fin(8.0))
    );
    assert_eq!(w("{}"), (None, None));
    assert_eq!(w("[1]"), (None, None));
}
