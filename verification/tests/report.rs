use quotaline::fmt::Hms;
use quotaline::history::Sample;
use quotaline::report::{api_section, report_times, run, Host, ReportSetting};

fn micros(x: f64) -> i64 {
    (x * 1e6).round() as i64
}

fn strip(s: &str) -> String {
    let mut out = String::new();
    let mut in_esc = false;
    for c in s.chars() {
        match (in_esc, c) {
            (false, '\u{1b}') => in_esc = true,
            (true, 'm') => in_esc = false,
            (false, c) => out.push(c),
            _ => {}
        }
    }
    out
}

fn utc(t: i64) -> Option<Hms> {
    let s = t.rem_euclid(86_400);
    let wday = (t.div_euclid(86_400) + 4).rem_euclid(7);
    Some((
        (s / 3600) as i32,
        (s % 3600 / 60) as i32,
        (s % 60) as i32,
        wday as i32,
    ))
}

fn setting(budget: Option<&str>) -> ReportSetting<'_> {
    ReportSetting {
        host: Host {
            name: "Acme",
            program: "Acme Coder",
            site: "acme.example",
        },
        window_min: 120_000_000,
        budget,
        budget_set: budget.is_some(),
    }
}

fn report(hist: &[Sample], budget: Option<&str>, now: i64) -> String {
    let now = now * 1_000_000;
    let times = report_times(&utc, hist, now);
    strip(&run(hist, &setting(budget), now, &times))
}

/// Thursday 1970-01-01, 13:06 UTC.
const NOW: i64 = 47_160;

fn windowed(t: i64, h5: f64, d7: f64, usd: f64, tin: i64) -> Sample {
    Sample {
        t,
        h5: Some(micros(h5)),
        h5r: Some(micros((NOW + 53 * 60) as f64)),
        d7: Some(micros(d7)),
        d7r: Some(micros((NOW + 6 * 86_400 + 3 * 3600 + 59 * 60) as f64)),
        sid: Some("s".into()),
        usd: Some(micros(usd)),
        tin: Some(tin),
        ..Default::default()
    }
}

#[test]
fn too_few_samples() {
    assert_eq!(
        report(&[], None, NOW),
        "Not enough samples yet (0). The status line logs ~1/min while sessions are active — \
         check back in a few minutes.\n"
    );
    assert!(report(&[windowed(NOW, 1.0, 1.0, 0.0, 0)], None, NOW).contains("yet (1)."));
}

#[test]
fn the_subscription_report_in_full() {
    let hist = vec![
        windowed(NOW - 1800, 10.0, 8.0, 1.0, 0),
        windowed(NOW, 25.0, 9.0, 3.2, 264_000),
    ];
    let expected = "\
Acme usage — burn rate  (2 samples over 30m)

  5h  ████░░░░░░░░░░   25%  +30.0%/hr   ETA 2h30m   resets in 53m @ 1:59pm (Thu)  → resets first
      headroom ~$11.00   ($0.147/1%, ≈17,600 raw-tok/1%)

  wk  █░░░░░░░░░░░░░    9%  +2.0%/hr   ETA 1d21h   resets in 6d3h @ 5:05pm (Wed)  → hits cap first
      headroom ~$200.20   ($2.200/1%, ≈264,000 raw-tok/1%)

  % and ETA are exact (account-wide). $/token are estimates — they assume your
  usage is mostly these sessions; acme.example etc. moves % but isn't logged.
  raw-tok counts include cache re-reads, so the $ figure is the steadier one.
";
    assert_eq!(report(&hist, None, NOW), expected);
}

#[test]
fn an_idle_and_a_full_window() {
    let hist = vec![
        windowed(NOW - 1800, 100.0, 8.0, 1.0, 0),
        windowed(NOW, 100.0, 8.0, 3.2, 0),
    ];
    let out = report(&hist, None, NOW);
    assert!(
        out.contains("  5h  ██████████████  100%  AT LIMIT   resets in 53m @ 1:59pm (Thu)\n"),
        "{out}"
    );
    assert!(
        out.contains("    8%  ~idle (no measurable burn)   resets in 6d3h @ 5:05pm (Wed)\n"),
        "{out}"
    );
    assert!(
        out.contains("headroom: n/a — need more % movement to anchor a $/% estimate\n"),
        "{out}"
    );
}

#[test]
fn a_probe_as_the_newest_sample_blanks_nothing() {
    let mut hist = vec![
        windowed(NOW - 1800, 10.0, 8.0, 1.0, 0),
        windowed(NOW, 25.0, 9.0, 3.2, 264_000),
    ];
    hist.push(Sample {
        t: NOW,
        sid: Some("probe".into()),
        usd: Some(micros(7.0)),
        ..Default::default()
    });
    let out = report(&hist, None, NOW);
    assert!(out.contains("  5h  ") && out.contains("  wk  "), "{out}");
    // Once the five-hour window has reset, its section is gone and the weekly one stays.
    let later = report(&hist, None, NOW + 53 * 60);
    assert!(!later.contains("  5h  ") && later.contains("  wk  "), "{later}");
}

fn priced(t: i64, sid: &str, usd: f64) -> Sample {
    Sample {
        t,
        sid: Some(sid.into()),
        usd: Some(micros(usd)),
        api: true,
        ..Default::default()
    }
}

#[test]
fn the_day_section_in_full() {
    // Monday 1970-01-05, 4h50m before midnight UTC.
    let midnight = 4 * 86_400;
    let now = midnight + 69_000;
    let hist = vec![
        priced(midnight + 1000, "a", 1.0),
        priced(now - 3600, "a", 10.0),
        priced(now, "a", 13.2),
        priced(midnight + 500, "b", 4.0),
        priced(midnight + 5000, "b", 4.2),
    ];
    let notes = "  day $ covers this machine's Acme Coder API-key sessions only, from logged
  samples — the status line's live figure can run up to a minute ahead.
";
    let line = "  day  $12.40 today (2 sessions)   +$3.2/hr   rolls over in 4h50m @ 12:00am (Tue)\n";
    let out = report(&hist, Some("50"), now);
    assert!(
        out.ends_with(&format!(
            "\n\n{line}      budget $50/day — 25% used → rolls over first\n\n{notes}"
        )),
        "{out}"
    );
    let out = report(&hist, Some("18.8"), now);
    assert!(
        out.contains("      budget $18.80/day — 66% used, ETA 2h → hits budget before midnight\n"),
        "{out}"
    );
    let out = report(&hist, Some("10"), now);
    assert!(out.contains("      budget $10/day — 124% used — over budget\n"), "{out}");
    let out = report(&hist, Some("$50"), now);
    assert!(
        out.contains(
            "      QUOTALINE_DAILY_BUDGET is set but not a positive number (use e.g. 50, not $50) \
             — ignored.\n"
        ),
        "{out}"
    );
    let out = report(&hist, None, now);
    assert!(out.ends_with(&format!("{line}\n{notes}")), "{out}");
}

#[test]
fn a_day_without_spend_has_no_section() {
    let hist = vec![windowed(NOW - 60, 10.0, 8.0, 1.0, 0), windowed(NOW, 10.0, 8.0, 1.0, 0)];
    let times = report_times(&utc, &hist, NOW * 1_000_000);
    let (text, shown) = api_section(&hist, &setting(Some("50")), NOW * 1_000_000, &times);
    assert_eq!((text.as_str(), shown), ("", false));
    // One session, and nothing burning.
    let one = vec![priced(NOW - 600, "a", 1.0), priced(NOW - 300, "a", 1.0)];
    let times = report_times(&utc, &one, NOW * 1_000_000);
    let (text, shown) = api_section(&one, &setting(None), NOW * 1_000_000, &times);
    assert!(shown);
    assert_eq!(
        strip(&text),
        "  day  $0 today (1 session)   ~idle (no measurable burn)   rolls over in 10h54m @ 12:00am (Fri)\n\n"
    );
}

#[test]
fn nothing_to_analyse() {
    let bare = |t: i64| Sample {
        t,
        ..Default::default()
    };
    let out = report(&[bare(1), bare(61)], None, NOW);
    assert_eq!(
        out,
        "Acme usage — burn rate  (2 samples over 1m)\n\n  \
         The samples carry no usable window percentages or API-key spend yet —\n  \
         nothing to analyse. Leave a session running and check back.\n"
    );
}

#[test]
fn the_share_of_a_budget_is_worked_out_in_double_precision() {
    // $1.15 of $2 is 57.5%, which comes to 57.49999999999999.
    let midnight = 4 * 86_400;
    let now = midnight + 69_000;
    for cents in (5..400).step_by(5) {
        let total = cents as f64 / 100.0;
        let hist = vec![priced(midnight + 1000, "a", 0.0), priced(now, "a", total)];
        for budget in ["2", "0.8", "4", "7.5"] {
            let pct = total / budget.parse::<f64>().unwrap() * 100.0;
            let out = report(&hist, Some(budget), now);
            assert!(out.contains(&format!("/day — {pct:.0}% used")), "{pct} {out}");
        }
    }
}

#[test]
fn the_headroom_is_worked_out_in_double_precision() {
    for pct10 in (110..1_000).step_by(7) {
        let cur = pct10 as f64 / 10.0;
        for cents in [7, 120, 333, 1_999] {
            let usd = cents as f64 / 100.0;
            let hist = vec![
                windowed(NOW - 1800, 10.0, 8.0, 0.0, 0),
                windowed(NOW, cur, 9.0, usd, 264_000),
            ];
            let out = report(&hist, None, NOW);
            let per_pct = usd / (cur - 10.0);
            let head = (100.0 - cur) * per_pct;
            let want = format!("headroom ~${head:.2}   (${per_pct:.3}/1%");
            assert!(out.contains(&want), "{want}\n{out}");
        }
    }
    // Past the limit what is left is below zero.
    let hist = vec![
        windowed(NOW - 1800, 10.0, 8.0, 0.0, 0),
        windowed(NOW, 110.0, 9.0, 5.0, 264_000),
    ];
    assert!(report(&hist, None, NOW).contains("headroom ~$-0.50   ($0.050/1%, ≈2,640 raw-tok/1%)"));
}
