use quotaline::fmt::Hms;
use quotaline::history::{Sample, SUB_HOLD_SECS};
use quotaline::json::{read_payload, Json};
use quotaline::log::log_sample;
use quotaline::memory::ProjectMemory;
use quotaline::num::Num;
use quotaline::spend::day_spend;
use quotaline::statusline::{
    bar_width, ctx_color, header, join_right, limits_na, local_times, render, render_api_key_with,
    render_line, reset_text, term_width, Surroundings,
};

fn micros(x: f64) -> i64 {
    (x * 1e6).round() as i64
}

fn num(x: f64) -> Option<Num> {
    Some(Num::Finite(micros(x)))
}

fn strip(s: &str) -> String {
    let mut out = String::new();
    let mut in_esc = false;
    for c in s.chars() {
        match (in_esc, c) {
            (false, '\u{1b}') => in_esc = true,
            (true, 'm') => in_esc = false,
            (false, c) => out.push(c),
            _ => {}
        }
    }
    out
}

fn utc(t: i64) -> Option<Hms> {
    let s = t.rem_euclid(86_400);
    let wday = (t.div_euclid(86_400) + 4).rem_euclid(7);
    Some((
        (s / 3600) as i32,
        (s % 3600 / 60) as i32,
        (s % 60) as i32,
        wday as i32,
    ))
}

fn no_memory() -> ProjectMemory {
    ProjectMemory {
        index: None,
        intuition: None,
    }
}

fn around(memory: &ProjectMemory) -> Surroundings<'_> {
    Surroundings {
        columns: None,
        budget: None,
        memory,
    }
}

fn api_line(input: &Json, now: f64, hist: &[Sample]) -> String {
    let memory = no_memory();
    let now = micros(now);
    let times = local_times(&utc, input, now);
    render_api_key_with(input, now, &around(&memory), hist, &times)
}

fn windowed(t: i64, usd: f64) -> Sample {
    Sample {
        t,
        h5: Some(micros(7.0)),
        h5r: Some(micros(t as f64 + 3600.0)),
        sid: Some("sess-abc-def-ghi".into()),
        usd: Some(micros(usd)),
        ..Default::default()
    }
}

fn payload(usd: f64) -> Json {
    read_payload(&format!(
        r#"{{
            "session_id": "sess-abc-def-ghi",
            "model": {{"display_name": "Opus 5"}},
            "cost": {{"total_cost_usd": {usd}}}
        }}"#
    ))
}

#[test]
fn a_held_session_says_the_windows_stopped_not_that_none_ever_came() {
    // Hours of subscription samples, then the payload arrives without them.
    let hist: Vec<Sample> = (0..5).map(|i| windowed(1_000 + i * 600, 28.19)).collect();
    let out = api_line(&payload(31.4), 3_400.0 + 5_400.0, &hist);
    assert!(out.contains("none reported for"), "{out}");
    assert!(!out.contains("awaiting first"), "{out}");
    assert!(
        out.contains("Opus 5"),
        "the header survives the hold: {out}"
    );
    // An unproven counter may still be a subscriber's shadow estimate, so no dollars.
    assert!(!out.contains("31.40") && !out.contains("day"), "{out}");
    assert_eq!(strip(&out), "Opus 5\nlimits n/a (none reported for 1h30m)");
    // Whatever the counter shows, the line does not change.
    assert_eq!(out, api_line(&payload(99.0), 3_400.0 + 5_400.0, &hist));
}

#[test]
fn a_quiet_time_that_cannot_be_true_is_not_quoted() {
    let hist = vec![windowed(1_000, 28.19)];
    // Clock stepped back behind the sample: `fmt_dur` would render this as "now".
    let out = api_line(&payload(31.4), 900.0, &hist);
    assert!(out.contains("(none reported)"), "{out}");
    assert!(!out.contains("for now"), "{out}");
    // A week is quoted, more than a week is not.
    let week = api_line(&payload(31.4), 1_000.0 + 604_800.0, &hist);
    assert!(week.contains("none reported for 7d"), "{week}");
    let more = api_line(&payload(31.4), 1_000.0 + 604_801.0, &hist);
    assert!(more.contains("(none reported)"), "{more}");
}

#[test]
fn a_session_the_history_never_saw_on_a_subscription_is_not_held() {
    let out = api_line(&payload(31.4), 10_000.0, &[]);
    assert!(!out.contains("none reported"), "{out}");
}

#[test]
fn a_proven_switch_renders_the_day_line() {
    let mut hist = vec![windowed(1_000, 28.19)];
    // Restored at $28.19, then seen climbing an hour before `now`.
    hist.push(Sample {
        t: 2_000,
        sid: Some("sess-abc-def-ghi".into()),
        usd: Some(micros(28.19)),
        ..Default::default()
    });
    hist.push(Sample {
        t: 2_600,
        sid: Some("sess-abc-def-ghi".into()),
        usd: Some(micros(29.5)),
        api: true,
        ..Default::default()
    });
    let out = api_line(&payload(31.4), (2_600 + SUB_HOLD_SECS) as f64, &hist);
    assert!(out.contains("day"), "{out}");
    assert!(
        out.contains("31.40"),
        "the session's real cost joins the header: {out}"
    );
}

/// Drives `log_sample` and the renderer together over a realistic timeline — the one
/// interaction neither module's own tests can show, since each half is what the other
/// half reads.
#[test]
fn a_switch_timeline_holds_then_releases_and_charges_only_post_switch_dollars() {
    let sub = |t: i64, usd: f64| {
        read_payload(&format!(
            r#"{{
                "session_id": "sess-abc-def-ghi",
                "cost": {{"total_cost_usd": {usd}}},
                "rate_limits": {{"five_hour": {{"used_percentage": 7, "resets_at": {}}}}}
            }}"#,
            t + 3600
        ))
    };
    let mut hist: Vec<Sample> = Vec::new();

    // Two hours on the subscription, shadow cost climbing $0.10/min.
    let mut usd = 10.0;
    for i in 0..120 {
        usd += 0.1;
        if let Some(h) = log_sample(&hist, &sub(i * 60, usd), i * 60) {
            hist = h;
        }
    }
    let switch_at = 120 * 60;
    // Then resumed under an API key: same id, no windows, real spend at $0.20/min.
    let mut released_at = None;
    for i in 0..180 {
        let t = switch_at + i * 60;
        usd += 0.2;
        let p = payload(usd);
        let out = api_line(&p, t as f64, &hist);
        if released_at.is_none() && out.contains("day") {
            released_at = Some(t);
        }
        if let Some(h) = log_sample(&hist, &p, t) {
            hist = h;
        }
    }

    let released = released_at.expect("a session spending for three hours is reclassified");
    // Held from the switch until 45 min after the first *movement* was observed, and no
    // longer: the first probe lands a minute in, the movement a minute after that.
    let elapsed = released - switch_at;
    assert!(
        (2760..=2940).contains(&elapsed),
        "released {elapsed}s after the switch"
    );

    // Only dollars spent after the release are charged — never the subscription hours,
    // whose shadow estimate rode the very same counter.
    let day = day_spend(&hist, 0, None, micros((switch_at + 180 * 60) as f64));
    let total = day.total as f64 / 1e6;
    let post_release_minutes = (180 * 60 - (released - switch_at)) / 60;
    let charged_ceiling = post_release_minutes as f64 * 0.2;
    assert!(
        total <= charged_ceiling + 1e-9,
        "charged {} against a ceiling of {charged_ceiling} — shadow cost leaked",
        total
    );
    // …and all but the first interval of it is charged: the baseline is the session's
    // first observation after release, so exactly one sample of burn is dropped.
    assert!(
        total > charged_ceiling - 0.25,
        "charged only {} of {charged_ceiling}",
        total
    );
}

/// The two memory gauges must appear together, in inbox-then-curated-store order, and the
/// second must vanish entirely on a project that has no `intuition.md`.
#[test]
fn memory_gauges_render_in_order_and_only_when_their_files_exist() {
    let v = read_payload(r#"{"model": {"display_name": "Opus 5"}, "transcript_path": "s.jsonl"}"#);
    let render = |memory: &ProjectMemory| strip(&header(&v, None, memory).unwrap());

    let only_mem = render(&ProjectMemory {
        index: Some("a\nb\n".to_string()),
        intuition: None,
    });
    assert!(only_mem.contains("mem "), "{only_mem}");
    assert!(
        !only_mem.contains("int "),
        "a project without intuition.md must render no int gauge: {only_mem}"
    );

    let both = render(&ProjectMemory {
        index: Some("a\nb\n".to_string()),
        intuition: Some("x\ny\nz\n".to_string()),
    });
    let m = both.find("mem ").expect("mem gauge missing");
    let i = both.find("int ").expect("int gauge missing");
    assert!(m < i, "mem must precede int, got: {both}");
    assert_eq!(both, "Opus 5 · mem 2% (3ln) · int 2% (4ln)");
}

#[test]
fn the_header_shows_what_the_payload_provides() {
    let full = read_payload(
        r#"{
            "model": {"display_name": "Opus 5"},
            "effort": {"level": "high"},
            "context_window": {"used_percentage": 6.7, "total_input_tokens": 67000}
        }"#,
    );
    let memory = no_memory();
    assert_eq!(
        strip(&header(&full, Some(micros(1.8125)), &memory).unwrap()),
        "Opus 5 · effort: high · ctx 7% (67k) · $1.81"
    );
    assert_eq!(header(&read_payload("{}"), None, &memory), None);
    // Without a count the tokens are the share of the window.
    let sized = read_payload(
        r#"{"context_window": {"used_percentage": "25", "context_window_size": 200000}}"#,
    );
    assert_eq!(strip(&header(&sized, None, &memory).unwrap()), "ctx 25% (50k)");
    // An empty context shows no size.
    let empty = read_payload(
        r#"{"context_window": {"used_percentage": 0, "context_window_size": 200000}}"#,
    );
    assert_eq!(strip(&header(&empty, None, &memory).unwrap()), "ctx 0%");
    let odd = read_payload(
        r#"{"context_window": {"used_percentage": "inf", "context_window_size": 200000}}"#,
    );
    assert_eq!(
        strip(&header(&odd, None, &memory).unwrap()),
        "ctx 9223372036854775807% (infM)"
    );
}

#[test]
fn the_context_is_coloured_by_the_more_severe_of_size_and_fill() {
    let (green, amber, red) = ("\x1b[32m", "\x1b[38;5;214m", "\x1b[31m");
    assert_eq!(ctx_color(None, None), green);
    assert_eq!(ctx_color(num(199_999.0), num(69.9)), green);
    assert_eq!(ctx_color(num(200_000.0), num(1.0)), amber);
    assert_eq!(ctx_color(num(1.0), num(70.0)), amber);
    assert_eq!(ctx_color(num(500_000.0), num(1.0)), red);
    assert_eq!(ctx_color(num(1.0), num(90.0)), red);
    assert_eq!(ctx_color(num(500_000.0), num(75.0)), red);
}

#[test]
fn the_width_comes_from_the_environment_or_is_eighty() {
    assert_eq!(term_width(None), 80);
    assert_eq!(term_width(Some(" 120 ")), 120);
    for odd in ["0", "-3", "wide", "", "1e3", "99999999999999999999"] {
        assert_eq!(term_width(Some(odd)), 80, "{odd:?}");
    }
    // 80 − 8 margin − (10 + 2) overhead − 20 on the right.
    assert_eq!(bar_width(None, 2, 20), 40);
    assert_eq!(bar_width(None, 2, 500), 8);
    assert_eq!(bar_width(Some("1000"), 2, 20), 150);
}

#[test]
fn resets_show_the_time_left_and_the_clock() {
    assert_eq!(reset_text(None, utc(0), 0), "—");
    assert_eq!(
        reset_text(num(3_180.0), utc(3_180), 0),
        "53m @ 12:53am (Thu)"
    );
    assert_eq!(reset_text(num(3_180.0), None, 0), "53m");
    assert_eq!(reset_text(num(1.0), None, micros(5.0)), "now");
    assert_eq!(reset_text(Some(Num::NaN), None, 0), "now");
    assert_eq!(reset_text(Some(Num::PosInf), None, 0), "106751991167300d15h");
}

#[test]
fn a_line_in_full() {
    assert_eq!(join_right("53m", ""), "53m");
    assert_eq!(join_right("53m", "↑2%/h"), "53m  ↑2%/h");
    assert_eq!(
        strip(&render_line("5h", num(50.0), 8, "53m", "")),
        "5h  ▕████    ▏ 50%  53m"
    );
    assert_eq!(
        strip(&render_line("wk", num(4.6), 8, "—", "x")),
        "wk  ▕▍       ▏  5%  —  x"
    );
    assert_eq!(
        strip(&render_line("wk", None, 8, "—", "")),
        "wk  ▕        ▏ --%  —"
    );
}

#[test]
fn before_any_usage_data_the_line_waits() {
    let memory = no_memory();
    for raw in ["", "{}", r#"{"rate_limits": {}}"#, r#"{"cost": {"total_cost_usd": 0}}"#] {
        let input = read_payload(raw);
        let times = local_times(&utc, &input, 0);
        assert_eq!(render(&input, 0, &around(&memory), &[], &times), limits_na());
    }
    assert_eq!(strip(&limits_na()), "limits n/a (awaiting first API response)");
}

#[test]
fn the_subscription_line_in_full() {
    // Thursday 1970-01-01, 13:06 UTC.
    let now = 47_160;
    let input = read_payload(&format!(
        r#"{{
            "session_id": "s",
            "model": {{"display_name": "Opus 5"}},
            "rate_limits": {{
                "five_hour": {{"used_percentage": 25, "resets_at": {}}},
                "seven_day": {{"used_percentage": 9, "resets_at": {}}}
            }}
        }}"#,
        now + 53 * 60,
        now + 6 * 86_400 + 3 * 3600 + 59 * 60
    ));
    let sample = |t: i64, h5: f64, d7: f64| Sample {
        t,
        h5: Some(micros(h5)),
        h5r: Some(micros((now + 53 * 60) as f64)),
        d7: Some(micros(d7)),
        d7r: Some(micros((now + 6 * 86_400 + 3 * 3600 + 59 * 60) as f64)),
        ..Default::default()
    };
    let hist = vec![sample(now - 1800, 10.0, 8.0), sample(now, 25.0, 9.0)];
    let memory = no_memory();
    let times = local_times(&utc, &input, micros(now as f64));
    let around = Surroundings {
        columns: Some("72"),
        budget: None,
        memory: &memory,
    };
    let out = strip(&render(&input, micros(now as f64), &around, &hist, &times));
    // 91% left at 2%/h is 45.5h, well before the weekly reset.
    let right = "6d3h @ 5:05pm (Wed)  ↑2%/h  ⚠ cap 1d21h";
    let width = 72 - 8 - 12 - right.chars().count();
    let lines: Vec<&str> = out.split('\n').collect();
    assert_eq!(lines[0], "Opus 5");
    assert!(lines[1].ends_with("▏ 25%  53m @ 1:59pm (Thu)  ↑30%/h"), "{out}");
    assert!(lines[2].ends_with(&format!("▏  9%  {right}")), "{out}");
    for line in &lines[1..] {
        let bar: String = line.chars().skip(5).take_while(|&c| c != '▏').collect();
        assert!(bar.chars().count() <= width);
        let frame = line.chars().position(|c| c == '▕').unwrap();
        assert_eq!(line.chars().nth(frame + width + 1), Some('▏'), "{line}");
    }
}

fn priced(t: i64, usd: f64) -> Sample {
    Sample {
        t,
        sid: Some("s".into()),
        usd: Some(micros(usd)),
        api: true,
        ..Default::default()
    }
}

#[test]
fn the_day_line_in_full() {
    // Monday 1970-01-05, 4h50m before midnight UTC.
    let midnight = 4 * 86_400;
    let now = midnight + 69_000;
    let input = read_payload(r#"{"session_id": "s", "cost": {"total_cost_usd": 13.4}}"#);
    let hist = vec![priced(midnight + 1000, 1.0), priced(now - 3600, 10.2)];
    let memory = no_memory();
    let times = local_times(&utc, &input, micros(now as f64));
    let line = |budget: Option<&str>, columns: Option<&str>| {
        let around = Surroundings {
            columns,
            budget,
            memory: &memory,
        };
        strip(&render(&input, micros(now as f64), &around, &hist, &times))
    };
    assert_eq!(
        line(None, None),
        "$13.40\nday  $12.40  4h50m @ 12:00am (Tue)  ↑$3.2/h"
    );
    // A budget that is not understood changes nothing.
    assert_eq!(line(Some("$50"), None), line(None, None));
    // 24.8% of 30 cells is 60 eighths.
    assert_eq!(
        line(Some("50"), Some("97")),
        "$13.40\n\
         day  ▕███████▌                      ▏ 25%  $12.40 of $50 · 4h50m @ 12:00am (Tue)  ↑$3.2/h"
    );
    // Over the budget the percentage is clamped to its field.
    let over = line(Some("0.5"), Some("120"));
    assert!(over.contains("▏ 999%  $12.40 of $0.50 · "), "{over}");
    assert!(over.ends_with("↑$3.2/h  ⚠ over budget"), "{over}");
    // Two hours of burn left is before midnight.
    let soon = line(Some("18.8"), Some("120"));
    assert!(soon.ends_with("↑$3.2/h  ⚠ budget 2h"), "{soon}");
}

#[test]
fn spend_that_cannot_be_attributed_shows_no_day_line() {
    let input = read_payload(r#"{"cost": {"total_cost_usd": 13.4}}"#);
    assert_eq!(api_line(&input, 1_000.0, &[]), limits_na());
}

#[test]
fn the_day_line_shows_a_share_in_double_precision() {
    let midnight = 4 * 86_400;
    let now = midnight + 69_000;
    let memory = no_memory();
    for cents in (5..1_000).step_by(5) {
        let total = cents as f64 / 100.0;
        let input = read_payload(&format!(
            r#"{{"session_id": "s", "cost": {{"total_cost_usd": {total}}}}}"#
        ));
        let hist = vec![priced(midnight + 1000, 0.0)];
        let times = local_times(&utc, &input, micros(now as f64));
        for budget in ["2", "0.8", "7.5"] {
            let around = Surroundings {
                columns: Some("120"),
                budget: Some(budget),
                memory: &memory,
            };
            let line = strip(&render(&input, micros(now as f64), &around, &hist, &times));
            let pct = (total / budget.parse::<f64>().unwrap() * 100.0).min(999.0);
            assert!(line.contains(&format!("▏ {:>2}%  ", pct.round() as i64)), "{pct} {line}");
            let bar = &line[line.find('▕').unwrap() + 3..line.rfind('▏').unwrap()];
            let width = bar.chars().count();
            let full = bar.chars().filter(|&c| c == '█').count();
            let eighths = ((pct.min(100.0) / 100.0) * width as f64 * 8.0).round() as usize;
            assert_eq!(full, eighths / 8, "{pct} {line}");
            assert_eq!(bar.trim_end().chars().count(), (eighths + 7) / 8, "{pct} {line}");
        }
    }
}

#[test]
fn the_share_of_a_context_window_is_worked_out_in_double_precision() {
    let memory = no_memory();
    let shown = |pct: &str, size: &str| {
        let input = read_payload(&format!(
            r#"{{"context_window": {{"used_percentage": {pct}, "context_window_size": {size}}}}}"#
        ));
        header(&input, None, &memory).map(|h| strip(&h))
    };
    assert_eq!(shown("57.5", "200000"), Some("ctx 58% (115k)".to_string()));
    assert_eq!(shown("20", "1000000"), Some("ctx 20% (200k)".to_string()));
    // What is above zero is shown, however little it is.
    assert_eq!(shown("0.000001", "0.000001"), Some("ctx 0% (0)".to_string()));
    assert_eq!(shown("0", "200000"), Some("ctx 0%".to_string()));
    assert_eq!(shown("-5", "200000"), Some("ctx -5%".to_string()));
}

#[test]
fn a_reset_with_a_fraction_counts_down_in_double_precision() {
    for tenth in 0..20 {
        for left in [59.0, 60.0, 3_600.0, 90_000.0] {
            let reset = 1_000.0 + left + tenth as f64 / 10.0;
            for now in [1_000.0, 1_000.1, 1_000.3, 1_000.7] {
                let secs = (reset - now) as i64;
                let text = reset_text(num(reset), None, micros(now));
                let want = match (secs / 86_400, secs % 86_400 / 3_600, secs % 3_600 / 60) {
                    (0, 0, 0) => "<1m".to_string(),
                    (0, 0, m) => format!("{m}m"),
                    (0, h, 0) => format!("{h}h"),
                    (0, h, m) => format!("{h}h{m:02}m"),
                    (d, 0, _) => format!("{d}d"),
                    (d, h, _) => format!("{d}d{h}h"),
                };
                assert_eq!(text, want, "{reset} {now}");
            }
        }
    }
}
