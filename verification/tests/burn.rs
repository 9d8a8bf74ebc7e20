use quotaline::burn::{analyze, burn_suffix, history_rate, slope_per_hr, Reading, Win};
use quotaline::double::{gap_of, Double};
use quotaline::history::Sample;
use quotaline::num::Num;

fn micros(x: f64) -> i64 {
    (x * 1e6).round() as i64
}

fn num(x: f64) -> Option<Num> {
    Some(Num::Finite(micros(x)))
}

/// The number that a double stands for.
fn value(d: Option<Double>) -> f64 {
    let d = d.unwrap();
    d.digits as f64 * 2f64.powi(d.exp)
}

fn readings(points: &[(f64, f64)]) -> Vec<Reading> {
    points
        .iter()
        .map(|p| (micros(p.0) as i128, micros(p.1)))
        .collect()
}

fn slope(points: &[(f64, f64)]) -> Option<f64> {
    slope_per_hr(&readings(points)).map(|r| r as f64 / 1e6)
}

#[test]
fn slope_known() {
    // 10% → 25% over 1800s = 15% per 0.5h = 30%/h.
    let pts = [(0.0, 10.0), (900.0, 17.5), (1800.0, 25.0)];
    let r = slope(&pts).unwrap();
    assert!((r - 30.0).abs() < 1e-9, "got {r}");
}

#[test]
fn slope_needs_two_points() {
    assert!(slope(&[(0.0, 1.0)]).is_none());
    assert!(slope(&[]).is_none());
}

#[test]
fn slope_flat_is_zero() {
    let pts = [(0.0, 5.0), (600.0, 5.0), (1200.0, 5.0)];
    assert_eq!(slope(&pts), Some(0.0));
}

#[test]
fn slope_needs_two_moments() {
    assert_eq!(slope(&[(7.0, 1.0), (7.0, 9.0), (7.0, 4.0)]), None);
}

#[test]
fn slope_does_not_depend_on_the_origin() {
    let pts = [(0.0, 1.0), (300.0, 4.0), (5700.0, 4.0)];
    let moved: Vec<(f64, f64)> = pts
        .iter()
        .map(|p| (p.0 + 1_700_000_000.0, p.1 - 250.0))
        .collect();
    assert_eq!(slope(&pts), slope(&moved));
    // Σ(x−x̄)(y−ȳ) / Σ(x−x̄)² · 3600 with x̄ = 2000 and ȳ = 3.
    let num = (-2000.0 * -2.0) + (-1700.0 * 1.0) + (3700.0 * 1.0);
    let den = 2000.0f64 * 2000.0 + 1700.0 * 1700.0 + 3700.0 * 3700.0;
    assert!((slope(&pts).unwrap() - num / den * 3600.0).abs() < 1e-6);
}

#[test]
fn slopes_are_exact_at_the_ends_of_the_range() {
    // Two readings a microsecond apart, and two an age apart.
    let steep: Vec<Reading> = vec![(0, i64::MIN), (1, i64::MAX)];
    assert_eq!(slope_per_hr(&steep), Some(i64::MAX));
    let falling: Vec<Reading> = vec![(0, i64::MAX), (1, i64::MIN)];
    assert_eq!(slope_per_hr(&falling), Some(i64::MIN));
    let long: Vec<Reading> = vec![(i128::MIN, 0), (i128::MAX, i64::MAX)];
    assert_eq!(slope_per_hr(&long), Some(0));
    let down: Vec<Reading> = vec![(0, 7_200_000_000), (3_600_000_000, 0)];
    assert_eq!(slope_per_hr(&down), Some(-7_200_000_000));
}

fn sample(t: i64, h5: f64, h5r: f64) -> Sample {
    Sample {
        t,
        h5: Some(micros(h5)),
        h5r: Some(micros(h5r)),
        ..Default::default()
    }
}

#[test]
fn rate_restricted_to_current_segment() {
    // An older segment (different reset) must not contaminate the current rate.
    let hist = vec![
        sample(0, 90.0, 1000.0),   // previous reset segment
        sample(100, 95.0, 1000.0), // previous reset segment
        sample(1000, 0.0, 5000.0), // current segment starts after reset
        sample(1900, 30.0, 5000.0),
    ];
    let r = history_rate(&hist, Win::FiveHour, num(5000.0), micros(2000.0)).unwrap();
    let r = r as f64 / 1e6;
    // 0→30 over 900s = 120%/h; the 90→95 prior-segment points are excluded.
    assert!((r - 120.0).abs() < 1e-6, "got {r}");
}

#[test]
fn a_reset_that_is_not_finite_matches_no_stored_one() {
    let hist = vec![sample(0, 1.0, 5000.0), sample(900, 2.0, 5000.0)];
    assert!(history_rate(&hist, Win::FiveHour, Some(Num::PosInf), 0).is_none());
    assert!(history_rate(&hist, Win::FiveHour, None, 0).is_none());
    assert!(history_rate(&hist, Win::SevenDay, num(5000.0), 0).is_none());
}

#[test]
fn the_rate_falls_back_to_the_whole_segment() {
    // One point in the trailing two hours: the older ones of the segment join in.
    let hist = vec![
        sample(0, 10.0, 90_000.0),
        sample(3600, 20.0, 90_000.0),
        sample(20_000, 21.0, 90_000.0),
    ];
    let all = history_rate(&hist, Win::FiveHour, num(90_000.0), micros(20_000.0));
    let pts = [(0.0, 10.0), (3600.0, 20.0), (20_000.0, 21.0)];
    assert_eq!(all, slope_per_hr(&readings(&pts)));
    // With two in the window only those count.
    let two = history_rate(&hist, Win::FiveHour, num(90_000.0), micros(7200.0));
    assert_eq!(two, slope_per_hr(&readings(&pts)));
    let recent = history_rate(&hist[..2], Win::FiveHour, num(90_000.0), micros(3600.0));
    assert_eq!(recent, Some(micros(10.0)));
}

#[test]
fn burn_suffix_warns_only_before_reset() {
    // rising fast, far from reset → cap warning present
    let (plain, _) = burn_suffix(num(50.0), num(10_000.0), Some(micros(60.0)), 0);
    assert!(plain.contains("cap"), "{plain}");
    // same rate but reset is imminent → no warning (resets first)
    let (plain2, _) = burn_suffix(num(50.0), num(60.0), Some(micros(60.0)), 0);
    assert!(!plain2.contains("cap"), "{plain2}");
    // no rate yet → empty
    assert_eq!(burn_suffix(num(50.0), num(10_000.0), None, 0).0, "");
}

#[test]
fn burn_suffix_in_full() {
    // 50% left at 60%/h is 50 minutes.
    let (plain, colored) = burn_suffix(num(50.0), num(10_000.0), Some(micros(60.0)), 0);
    assert_eq!(plain, "↑60%/h  ⚠ cap 50m");
    assert_eq!(
        colored,
        "\x1b[2m↑60%/h\x1b[0m  \x1b[31m⚠ cap 50m\x1b[0m"
    );
    // A falling rate shows as none.
    assert_eq!(burn_suffix(num(50.0), None, Some(micros(-3.0)), 0).0, "↑0%/h");
    // At the threshold there is nothing to warn of, and at the cap nothing left to hit.
    assert_eq!(burn_suffix(num(50.0), num(1e6), Some(micros(0.5)), 0).0, "↑0.5%/h");
    assert_eq!(burn_suffix(num(100.0), num(1e6), Some(micros(9.0)), 0).0, "↑9%/h");
    assert_eq!(burn_suffix(None, num(1e6), Some(micros(9.0)), 0).0, "↑9%/h");
    assert_eq!(burn_suffix(Some(Num::NaN), num(1e6), Some(micros(9.0)), 0).0, "↑9%/h");
    assert_eq!(
        burn_suffix(num(91.0), Some(Num::PosInf), Some(micros(9.0)), 0).0,
        "↑9%/h  ⚠ cap 1h"
    );
    // The reset lands exactly when the cap does: it resets first.
    assert_eq!(
        burn_suffix(num(91.0), num(3600.0), Some(micros(9.0)), 0).0,
        "↑9%/h"
    );
}

fn full(t: i64, h5: f64, usd: f64, tin: i64, sid: &str) -> Sample {
    Sample {
        t,
        h5: Some(micros(h5)),
        h5r: Some(micros(50_000.0)),
        usd: Some(micros(usd)),
        tin: Some(tin),
        sid: Some(sid.to_string()),
        ..Default::default()
    }
}

#[test]
fn analysis_converts_percent_to_dollars_and_tokens() {
    let hist = vec![
        full(0, 10.0, 1.0, 1_000, "a"),
        full(900, 15.0, 7.0, 0, "b"),
        full(1800, 25.0, 3.2, 265_000, "a"),
    ];
    let a = analyze(&hist, Win::FiveHour, 7_200_000_000, micros(2000.0)).unwrap();
    assert_eq!(a.cur, micros(25.0));
    assert_eq!(a.reset, Some(micros(50_000.0)));
    let conv = a.conv.unwrap();
    // $2.20 and 264,000 tokens over 15%; the session seen once moved nothing.
    assert_eq!(value(conv.usd_per_pct), 2.2 / 15.0);
    assert_eq!(value(conv.tok_per_pct), 264_000.0 / 15.0);
    assert!(analyze(&hist, Win::SevenDay, 7_200_000_000, micros(2000.0)).is_none());
}

#[test]
fn a_sample_without_percentages_hides_no_window() {
    let mut hist = vec![full(0, 10.0, 1.0, 0, "a"), full(1800, 25.0, 3.2, 0, "a")];
    let before = analyze(&hist, Win::FiveHour, 7_200_000_000, micros(2000.0)).unwrap();
    // A resumed session's probe lands last.
    hist.push(Sample {
        t: 1900,
        sid: Some("probe".to_string()),
        usd: Some(micros(99.0)),
        ..Default::default()
    });
    let after = analyze(&hist, Win::FiveHour, 7_200_000_000, micros(2000.0)).unwrap();
    assert_eq!(before.cur, after.cur);
    assert_eq!(before.rate, after.rate);
}

#[test]
fn a_window_that_has_reset_is_no_longer_current() {
    let hist = vec![full(0, 10.0, 1.0, 0, "a"), full(1800, 25.0, 3.2, 0, "a")];
    assert!(analyze(&hist, Win::FiveHour, 7_200_000_000, micros(49_999.0)).is_some());
    assert!(analyze(&hist, Win::FiveHour, 7_200_000_000, micros(50_000.0)).is_none());
}

#[test]
fn api_spend_stays_out_of_the_subscription_anchor() {
    let mut hist = vec![full(0, 10.0, 1.0, 0, "a"), full(1800, 25.0, 3.2, 0, "a")];
    let clean = analyze(&hist, Win::FiveHour, 7_200_000_000, micros(2000.0)).unwrap();
    for (t, usd) in [(600, 10.0), (1200, 60.0)] {
        hist.insert(
            1,
            Sample {
                t,
                sid: Some("api".to_string()),
                usd: Some(micros(usd)),
                api: true,
                ..Default::default()
            },
        );
    }
    let mixed = analyze(&hist, Win::FiveHour, 7_200_000_000, micros(2000.0)).unwrap();
    assert_eq!(
        clean.conv.unwrap().usd_per_pct,
        mixed.conv.unwrap().usd_per_pct
    );
}

#[test]
fn samples_without_an_id_count_as_one_session() {
    let mut hist = vec![full(0, 10.0, 1.0, 0, "x"), full(1800, 20.0, 4.0, 0, "x")];
    for s in hist.iter_mut() {
        s.sid = None;
    }
    let a = analyze(&hist, Win::FiveHour, 7_200_000_000, micros(2000.0)).unwrap();
    assert_eq!(value(a.conv.unwrap().usd_per_pct), 0.3);
    // A percentage that did not rise anchors nothing.
    hist[1].h5 = Some(micros(10.0));
    let flat = analyze(&hist, Win::FiveHour, 7_200_000_000, micros(2000.0)).unwrap();
    assert!(flat.conv.is_none());
}

#[test]
fn a_cap_lands_where_double_precision_puts_it() {
    // 99.8% at 0.8%/h take 449,100 s, one less in double precision.
    let mut seen = 0;
    for p10 in 0..1_000 {
        for r10 in [6, 7, 8, 9, 11, 13, 15, 16, 18, 30, 36, 70, 99, 150, 333] {
            let (p, rate) = (p10 as f64 / 10.0, r10 as f64 / 10.0);
            let eta = (100.0 - p) / rate * 3600.0;
            for ttr in [600.0, 86_400.0, eta.floor(), eta.floor() + 1.0] {
                let (plain, _) = burn_suffix(num(p), num(1e9 + ttr), Some(micros(rate)), micros(1e9));
                let secs = eta as i64;
                let (d, h, m) = (secs / 86_400, secs % 86_400 / 3_600, secs % 3_600 / 60);
                assert_eq!(plain.contains("⚠ cap "), eta > 0.0 && eta < ttr, "{p} {rate} {ttr}");
                if eta < ttr && d == 0 && h > 0 && m > 0 {
                    seen += 1;
                    assert!(plain.ends_with(&format!("⚠ cap {h}h{m:02}m")), "{plain} {eta}");
                }
            }
        }
    }
    assert!(seen > 1_000);
}

#[test]
fn doubles_are_those_of_the_machine() {
    let micros_of = |v: u64| value(Some(Double::of_micros(v)));
    let mut v: u64 = 1;
    for _ in 0..20_000 {
        let (a, b) = (v >> (v % 50), (v >> 7) >> (v % 41) | 1);
        assert_eq!(value(Some(Double::of_whole(a))), a as f64);
        let (x, y) = (Double::of_whole(a), Double::of_whole(b));
        assert_eq!(value(Some(x.times(y))), a as f64 * b as f64);
        assert_eq!(value(Some(x.over(y))), a as f64 / b as f64);
        assert_eq!(x.is_below(y), (a as f64) < b as f64);
        assert_eq!(x.over(y).round(), (a as f64 / b as f64).round() as i64);
        assert_eq!(x.over(y).whole(), (a as f64 / b as f64) as i64);
        // Cut to millionths it rounds the same.
        let small = Double::of_whole(a % 1_000_000_007).over(y);
        assert_eq!((small.cut() + 500_000) / 1_000_000, small.round());
        // An amount of up to 2^53 millionths reads as the decimal does.
        let m = a % (1 << 53);
        let text = format!("{}.{:06}", m / 1_000_000, m % 1_000_000);
        assert_eq!(micros_of(m), text.parse::<f64>().unwrap());
        let (p, q) = ((a % (1 << 50)) as i64, (b % (1 << 50)) as i64);
        let far = micros_of(p as u64) - micros_of(q as u64);
        assert_eq!(value(Some(gap_of(p, q))), far.max(0.0));
        assert_eq!(value(Some(gap_of(p, -q))), micros_of(p as u64) + micros_of(q as u64));
        v = v.wrapping_mul(6_364_136_223_846_793_005).wrapping_add(1_442_695_040_888_963_407);
    }
}
