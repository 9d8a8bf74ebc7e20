use quotaline::history::{Sample, SUB_HOLD_SECS};
use quotaline::spend::{
    budget_outcome, daily_budget_from, day_rate, day_spend, spend_suffix, BudgetOutcome, DayRate,
    Live,
};

fn micros(x: f64) -> i64 {
    (x * 1e6).round() as i64
}

fn units(m: i64) -> f64 {
    m as f64 / 1e6
}

const WINDOW: i128 = 7_200_000_000;

fn api_sample(t: i64, sid: &str, usd: f64) -> Sample {
    Sample {
        t,
        sid: Some(sid.to_string()),
        usd: Some(micros(usd)),
        api: true,
        ..Default::default()
    }
}

fn sub_sample(t: i64, sid: &str, usd: f64) -> Sample {
    Sample {
        t,
        sid: Some(sid.to_string()),
        usd: Some(micros(usd)),
        h5: Some(micros(10.0)),
        d7: Some(micros(20.0)),
        ..Default::default()
    }
}

fn live(sid: &str, usd: f64) -> Live<'_> {
    Live {
        sid: Some(sid),
        usd: micros(usd),
    }
}

/// A rate whose whole burn is well-enough evidenced for the budget warning.
fn rated(per_hr: f64) -> Option<DayRate> {
    Some(DayRate {
        per_hr: micros(per_hr),
        warn_per_hr: micros(per_hr),
    })
}

const MID: i64 = 1000;
/// Just past the last sample in these fixtures — the live point's own moment, which
/// decides whether a live session is still reporting subscription windows.
const NOW: i64 = 3_100_000_000;

fn spent(hist: &[Sample], live: Option<&Live>, now: i64) -> (f64, usize) {
    let d = day_spend(hist, MID, live, now);
    (units(d.total), d.sessions)
}

#[test]
fn only_observed_movement_counts() {
    // A session's counter before its first observation is unknowable spend — even for
    // a session that (per any payload hint) "started today". No fabrication.
    let hist = vec![api_sample(2000, "a", 3.0), api_sample(3000, "a", 5.0)];
    let (total, sessions) = spent(&hist, None, NOW);
    assert_eq!(sessions, 1);
    assert!((total - 2.0).abs() < 1e-9, "got {}", total);
}

#[test]
fn session_spanning_midnight_uses_pre_midnight_baseline() {
    let hist = vec![
        api_sample(900, "a", 10.0), // before midnight: baseline $10
        api_sample(2000, "a", 14.0),
    ];
    let (total, _) = spent(&hist, None, NOW);
    assert!((total - 4.0).abs() < 1e-9, "got {}", total);
}

#[test]
fn sessions_sum_and_sub_samples_ignored() {
    let hist = vec![
        api_sample(2000, "a", 3.0),
        api_sample(2600, "a", 6.0),
        sub_sample(2500, "sub", 99.0), // subscription shadow cost must not count
        api_sample(3000, "b", 2.0),
        api_sample(3050, "b", 2.5),
    ];
    let (total, sessions) = spent(&hist, None, NOW);
    assert_eq!(sessions, 2);
    assert!((total - 3.5).abs() < 1e-9, "got {}", total);
}

#[test]
fn unflagged_samples_never_count_as_spend() {
    // A sample with cost and no windows but no explicit flag — a stripped API sample or
    // a degenerate subscription sample; either way it must not count as dollars.
    let stripped = Sample {
        t: 2000,
        sid: Some("stripped-sid".to_string()),
        usd: Some(micros(12.4)),
        ..Default::default()
    };
    let mut later = stripped.clone();
    later.t = 2600;
    later.usd = Some(micros(13.4));
    // Even alongside a genuinely flagged API session in the same history.
    let flagged_a = api_sample(2900, "realapi", 1.0);
    let flagged_b = api_sample(2960, "realapi", 1.5);
    let (total, sessions) = spent(&[stripped, later, flagged_a, flagged_b], None, NOW);
    assert_eq!(sessions, 1);
    assert!((total - 0.5).abs() < 1e-9, "got {}", total);
}

#[test]
fn mislabelled_subscription_session_is_excluded_retroactively() {
    // An api-flagged sample that a subscription session left behind (resumed-session
    // transient) must not count.
    let hist = vec![
        api_sample(2000, "resumed", 12.5), // mislabelled transient
        sub_sample(2500, "resumed", 13.0), // truth arrives
        api_sample(3000, "realapi", 2.0),
        api_sample(3060, "realapi", 2.5),
    ];
    let (total, sessions) = spent(&hist, None, NOW);
    assert_eq!(sessions, 1);
    assert!((total - 0.5).abs() < 1e-9, "got {}", total);

    // The live payload of a known-subscription session is excluded the same way.
    let live = live("resumed", 20.0);
    let (total2, sessions2) = spent(&hist, Some(&live), NOW);
    assert_eq!(sessions2, 1);
    assert!((total2 - 0.5).abs() < 1e-9, "got {}", total2);
}

#[test]
fn session_that_switched_auth_contributes_its_post_switch_spend() {
    // Only the samples taken beside the windows are shadow cost; the ones from well after
    // the switch are money.
    let hold = SUB_HOLD_SECS;
    let hist = vec![
        sub_sample(1200, "sw", 20.0),
        sub_sample(1500, "sw", 28.0),
        api_sample(1560, "sw", 28.0), // stray flag beside the windows: not spend
        api_sample(1500 + hold + 60, "sw", 30.0),
        api_sample(1500 + hold + 660, "sw", 33.0),
    ];
    let (total, sessions) = spent(&hist, None, (1500 + hold + 700) * 1_000_000);
    assert_eq!(sessions, 1);
    assert!((total - 3.0).abs() < 1e-9, "got {}", total);
}

#[test]
fn a_counter_is_never_differenced_across_a_subscription_phase() {
    // API-key leg, then the session is resumed without the key and spends hours on the
    // subscription — where the same counter keeps climbing on the *shadow* estimate —
    // then switches back. Differencing first-to-last would bank that whole climb as
    // money. Only the two API-key legs' own movement is real.
    let hold = SUB_HOLD_SECS;
    let mut hist = vec![api_sample(1200, "s", 5.0), api_sample(1380, "s", 5.6)];
    hist.extend((0..40).map(|i| sub_sample(4100 + i * 60, "s", 12.0 + i as f64 * 2.0)));
    let last_win = 4100 + 39 * 60;
    hist.push(api_sample(last_win + hold + 60, "s", 92.0));
    let (total, sessions) = spent(&hist, None, (last_win + hold + 100) * 1_000_000);
    assert_eq!(sessions, 1);
    // 5.6 − 5.0 from the first leg; the second leg has one observation, so no movement.
    assert!((total - 0.6).abs() < 1e-9, "got {}", total);

    // Same shape across midnight: the pre-midnight counter is not a valid baseline for
    // today once a subscription phase sits between the two.
    let mut hist2 = vec![api_sample(-3600, "s", 5.0)];
    hist2.extend((0..40).map(|i| sub_sample(1000 + i * 60, "s", 5.0 + i as f64 * 2.0)));
    let last_win2 = 1000 + 39 * 60;
    hist2.push(api_sample(last_win2 + hold + 60, "s", 92.0));
    hist2.push(api_sample(last_win2 + hold + 660, "s", 94.0));
    let (total2, _) = spent(&hist2, None, (last_win2 + hold + 700) * 1_000_000);
    assert!((total2 - 2.0).abs() < 1e-9, "got {}", total2);
}

#[test]
fn a_stray_pre_midnight_flag_cannot_become_a_baseline() {
    // The resume transient can flag one sample beside the windows. Landing before
    // midnight it would become the baseline — and a baseline only ever *lowers* what is
    // subtracted, so a stray one manufactures dollars rather than losing them.
    let hold = SUB_HOLD_SECS;
    let hist = vec![
        sub_sample(800, "sw", 50.0),
        api_sample(850, "sw", 3.0), // stray, beside the windows
        api_sample(800 + hold + 60, "sw", 30.0),
        api_sample(800 + hold + 660, "sw", 33.0),
    ];
    let (total, sessions) = spent(&hist, None, (800 + hold + 700) * 1_000_000);
    assert_eq!(sessions, 1);
    assert!((total - 3.0).abs() < 1e-9, "got {}", total);
}

#[test]
fn day_rate_fits_only_the_current_run() {
    // A point from before the session's subscription phase would drag the shadow climb
    // across that phase into the slope and read as a burst of current burn.
    let hist = vec![
        api_sample(0, "s", 1.0),
        sub_sample(2760, "s", 1.1),
        sub_sample(4000, "s", 25.0),
        api_sample(6820, "s", 25.2),
    ];
    let live = live("s", 25.4);
    // The current run really is burning ($0.20 over 600s = $1.2/h) and that is what
    // shows — not the ~$12/h the pre-phase point would manufacture.
    let r = day_rate(&hist, Some(&live), WINDOW, micros(7420.0)).unwrap();
    let per_hr = units(r.per_hr);
    assert!((per_hr - 1.2).abs() < 0.05, "got {}", per_hr);

    // A stray flag *after* the last window is caught by the other filter: it sits
    // beside the windows, where the counter is still the shadow estimate.
    let mut with_stray = hist.clone();
    with_stray.push(api_sample(4100, "s", 1.2));
    let r2 = day_rate(&with_stray, Some(&live), WINDOW, micros(7420.0)).unwrap();
    let per_hr2 = units(r2.per_hr);
    assert!((per_hr2 - 1.2).abs() < 0.05, "got {}", per_hr2);
}

#[test]
fn a_run_is_differenced_on_its_maximum_not_its_last_listed_sample() {
    // A clock step can leave today's samples out of time order, and a counter that appears
    // to dip must not shrink what the session is charged.
    let hist = vec![
        api_sample(2000, "a", 5.0),
        api_sample(2600, "a", 9.0),
        api_sample(3000, "a", 7.0),
    ];
    let (total, _) = spent(&hist, None, NOW);
    assert!((total - 4.0).abs() < 1e-9, "got {}", total);
    // Listed in another order, the same.
    let shuffled = vec![hist[2].clone(), hist[0].clone(), hist[1].clone()];
    assert_eq!(spent(&shuffled, None, NOW), (total, 1));
}

#[test]
fn every_subscription_phase_re_bases_not_just_the_first() {
    // API → sub → API → sub → API. Each phase closes a run and the next re-bases, so
    // only the three API legs' own movement is money.
    let hold = SUB_HOLD_SECS;
    let gap = hold + 60; // clear of the ±hold shadow on both sides
    let mut hist = vec![api_sample(1100, "s", 1.0), api_sample(1160, "s", 1.5)];
    let w1 = 1160 + gap;
    hist.push(sub_sample(w1, "s", 20.0)); // shadow climb through phase 1
    hist.push(api_sample(w1 + gap, "s", 40.0));
    hist.push(api_sample(w1 + gap + 60, "s", 40.5));
    let w2 = w1 + gap + 60 + gap;
    hist.push(sub_sample(w2, "s", 70.0)); // shadow climb through phase 2
    hist.push(api_sample(w2 + gap, "s", 90.0));
    hist.push(api_sample(w2 + gap + 60, "s", 90.25));
    let (total, _) = spent(&hist, None, (w2 + gap + 100) * 1_000_000);
    // 0.5 + 0.5 + 0.25 — never the $89.25 a single difference would bank.
    assert!((total - 1.25).abs() < 1e-9, "got {}", total);
}

#[test]
fn pre_midnight_baseline_is_order_independent() {
    // Two pre-midnight samples out of time order (clock step): the baseline must be the
    // counter maximum, not whichever the file happens to list last.
    let hist = vec![
        api_sample(950, "a", 10.0), // later sample listed first
        api_sample(900, "a", 8.0),
        api_sample(2000, "a", 12.0),
    ];
    let (total, _) = spent(&hist, None, NOW);
    assert!((total - 2.0).abs() < 1e-9, "got {}", total); // 12 − max(10, 8)
}

#[test]
fn of_equal_baselines_the_later_counts() {
    // A phase lies after the earlier of two equal counters, but not after the later.
    let far = MID + 100_000;
    let hist = vec![
        api_sample(far - 50_000, "a", 8.0),
        sub_sample(far - 40_000, "a", 8.0),
        api_sample(far - 20_000, "a", 8.0),
        api_sample(far + 500, "a", 11.0),
    ];
    let d = day_spend(&hist, far, None, micros((far + 600) as f64));
    assert_eq!(d.total, micros(3.0));
}

#[test]
fn sid_less_samples_are_skipped_not_merged() {
    let mut a = api_sample(2000, "x", 5.0);
    a.sid = None;
    let mut b = api_sample(3000, "y", 3.0);
    b.sid = None;
    let d = day_spend(&[a, b], MID, None, NOW);
    assert_eq!(d.sessions, 0);
    assert_eq!(d.total, 0);
    assert_eq!(
        units(d.total).to_bits(),
        0.0f64.to_bits(),
        "positive zero, not -0.0"
    );
}

#[test]
fn live_point_extends_sessions() {
    // Live counter is fresher than the last sample of the same session.
    let hist = vec![
        api_sample(900, "abcdefghijkl-full-sid", 1.0), // pre-midnight baseline $1
        api_sample(2000, "abcdefghijkl-full-sid", 3.0),
    ];
    // Must match via 12-char truncation.
    let lv = live("abcdefghijkl-full-sid", 4.5);
    let (total, sessions) = spent(&hist, Some(&lv), NOW);
    assert_eq!(sessions, 1);
    assert!((total - 3.5).abs() < 1e-9, "got {}", total);

    // A live session with no samples yet contributes presence, not unprovable dollars.
    let live2 = live("fresh", 1.25);
    let (total2, sessions2) = spent(&[], Some(&live2), NOW);
    assert_eq!(sessions2, 1);
    assert!((total2 - 0.0).abs() < 1e-9, "got {}", total2);
}

#[test]
fn totals_are_held_at_the_end_of_the_range() {
    let mut hist = Vec::new();
    for sid in ["a", "b"] {
        hist.push(Sample {
            usd: Some(i64::MIN),
            ..api_sample(2000, sid, 0.0)
        });
        hist.push(Sample {
            usd: Some(i64::MAX),
            ..api_sample(2100, sid, 0.0)
        });
    }
    let d = day_spend(&hist, MID, None, NOW);
    assert_eq!((d.total, d.sessions), (i64::MAX, 2));
}

#[test]
fn day_rate_fits_per_session() {
    // $2/h and $1/h sessions sum to $3/h; the live point marks "a" as still alive.
    let hist = vec![
        api_sample(0, "a", 0.0),
        api_sample(1800, "a", 1.0),
        api_sample(3600, "a", 2.0),
        api_sample(0, "b", 5.0),
        api_sample(3600, "b", 6.0),
    ];
    let live = live("a", 2.0);
    let r = day_rate(&hist, Some(&live), WINDOW, micros(3600.0)).unwrap();
    assert!((units(r.per_hr) - 3.0).abs() < 1e-9, "got {}", r.per_hr);
    // Both sessions span an hour, so the whole rate is warnable.
    assert!(
        (units(r.warn_per_hr) - 3.0).abs() < 1e-9,
        "got {}",
        r.warn_per_hr
    );
}

#[test]
fn day_rate_ignores_accrued_step_from_newly_visible_session() {
    // Session "old" appears mid-window with $8 accrued over hours: a machine-wide
    // cumulative fit would read that as a step of current burn. Per-session fitting
    // sees only its (tiny) in-window movement.
    let hist = vec![
        api_sample(0, "a", 0.0),
        api_sample(3600, "a", 1.0),
        api_sample(3000, "old", 8.0),
        api_sample(3600, "old", 8.1),
    ];
    let r = day_rate(&hist, None, WINDOW, micros(3600.0)).unwrap();
    // a: $1/h; old: 0.1 over 600s = $0.6/h. Nothing like the $8 step.
    assert!((units(r.per_hr) - 1.6).abs() < 1e-6, "got {}", r.per_hr);
}

#[test]
fn day_rate_decays_for_exited_sessions() {
    // A session bursts $3 in 5 minutes then exits; 90 minutes later its burst must not
    // still read as current burn. The flat tail at `now` dilutes the slope.
    let hist = vec![api_sample(0, "gone", 1.0), api_sample(300, "gone", 4.0)];
    let r = day_rate(&hist, None, WINDOW, micros(5700.0)).unwrap();
    // Least squares over (0,1),(300,4),(5700,4): far below the burst's $36/h.
    assert!(units(r.per_hr) < 2.0, "got {}", r.per_hr);
}

#[test]
fn day_rate_rejects_ill_conditioned_fits() {
    // Live session: no flat tail, so two points seconds apart must not produce an
    // absurd spike.
    let hist = vec![api_sample(3600, "a", 0.02)];
    let live = live("a", 0.10);
    assert!(day_rate(&hist, Some(&live), WINDOW, micros(3605.0)).is_none());
    // A single point with a flat tail fits a zero slope rather than nothing.
    let r = day_rate(&hist, None, WINDOW, micros(3700.0)).unwrap();
    assert_eq!(r.per_hr, 0);
    assert!(day_rate(&[], None, WINDOW, micros(3700.0)).is_none());
}

#[test]
fn day_rate_looks_back_no_further_than_its_window() {
    let hist = vec![api_sample(0, "a", 0.0), api_sample(7200, "a", 2.0)];
    let whole = day_rate(&hist, None, WINDOW, micros(7200.0)).unwrap();
    assert_eq!(whole.per_hr, micros(1.0));
    // A microsecond later the first sample is out, and the flat tail is too short a base.
    assert!(day_rate(&hist, None, WINDOW, micros(7200.0) + 1).is_none());
}

#[test]
fn warnable_rate_is_gated_per_session_not_by_the_best_span() {
    // Session A: steady $0.5/h over 2h. Session B (live): $120/h over a 60s base.
    // A's long span must not vouch for B's spike — only A's burn is warnable.
    let hist = vec![
        api_sample(0, "steady", 0.0),
        api_sample(3600, "steady", 0.5),
        api_sample(7200, "steady", 1.0),
        api_sample(7140, "spiky", 1.0),
    ];
    let live = live("spiky", 3.0);
    let r = day_rate(&hist, Some(&live), WINDOW, micros(7200.0)).unwrap();
    assert!(
        units(r.per_hr) > 100.0,
        "display shows the spike: {}",
        r.per_hr
    );
    assert!(
        units(r.warn_per_hr) < 1.0,
        "prediction excludes it: {}",
        r.warn_per_hr
    );
    assert!(r.warn_per_hr <= r.per_hr);

    // Consequently no budget warning fires from the spike alone…
    let budget = Some(micros(50.0));
    let (plain, _) = spend_suffix(micros(4.0), budget, Some(r), 80_000, micros(7200.0));
    assert!(plain.contains("↑") && !plain.contains("⚠"), "{plain}");
    // …until the spiky session accumulates its own evidence span.
    let (plain2, _) = spend_suffix(micros(4.0), budget, rated(120.0), 80_000, micros(7200.0));
    assert!(plain2.contains("⚠ budget"), "{plain2}");
}

#[test]
fn suffix_warns_only_when_budget_hit_before_midnight() {
    let suffix = |today: f64, budget: Option<f64>, rate: Option<DayRate>, mid: i64| {
        spend_suffix(micros(today), budget.map(micros), rate, mid, 0).0
    };
    // $10 spent of $20, burning $5/h, midnight 10h away → hits budget in 2h → warn.
    let plain = suffix(10.0, Some(20.0), rated(5.0), 36_000);
    assert!(plain.contains("budget"), "{plain}");
    assert_eq!(plain, "↑$5/h  ⚠ budget 2h");
    // Midnight in 1h → rolls over before the budget is hit → no warning.
    let plain2 = suffix(10.0, Some(20.0), rated(5.0), 3600);
    assert!(!plain2.contains("budget"), "{plain2}");
    // Already over → explicit flag regardless of rate.
    let plain3 = suffix(25.0, Some(20.0), rated(0.0), 36_000);
    assert!(plain3.contains("over budget"), "{plain3}");
    // Over budget with NO rate at all (fresh install): the flag must still show.
    let plain4 = suffix(25.0, Some(20.0), None, 36_000);
    assert!(plain4.contains("over budget"), "{plain4}");
    assert_eq!(plain4, "⚠ over budget");
    // No budget → rate only, no warnings.
    let plain5 = suffix(10.0, None, rated(5.0), 36_000);
    assert!(plain5.contains("↑") && !plain5.contains("⚠"), "{plain5}");
    // No rate, no budget trouble → empty.
    assert_eq!(suffix(10.0, None, None, 36_000), "");
    assert_eq!(suffix(10.0, Some(20.0), None, 36_000), "");
}

#[test]
fn idle_rate_is_suppressed_inline() {
    // Below the shared idle threshold the ↑ readout disappears (the report prints
    // ~idle for the same input).
    assert_eq!(spend_suffix(micros(1.0), None, rated(0.004), 36_000, 0).0, "");
    assert_eq!(spend_suffix(micros(1.0), None, rated(0.005), 36_000, 0).0, "");
    assert_eq!(spend_suffix(micros(1.0), None, rated(0.02), 36_000, 0).0, "↑$0.02/h");
}

#[test]
fn budget_parse() {
    assert_eq!(daily_budget_from("50"), Some(micros(50.0)));
    assert_eq!(daily_budget_from(" 12.5 "), Some(micros(12.5)));
    assert_eq!(daily_budget_from("$50"), None);
    assert_eq!(daily_budget_from("0"), None);
    assert_eq!(daily_budget_from("-5"), None);
    assert_eq!(daily_budget_from("inf"), None);
    assert_eq!(daily_budget_from("nan"), None);
    assert_eq!(daily_budget_from("abc"), None);
    // However small, a budget is a budget.
    assert_eq!(daily_budget_from("1e-7"), Some(1));
    assert_eq!(daily_budget_from("2e308"), None);
}

#[test]
fn the_day_figure_ignores_the_order_of_samples() {
    let hold = SUB_HOLD_SECS;
    let w = 2_000 + hold + 60;
    let hist = vec![
        api_sample(900, "a", 10.0),
        api_sample(2_000, "a", 12.0),
        sub_sample(w, "a", 40.0),
        api_sample(w + hold + 60, "a", 60.0),
        api_sample(w + hold + 120, "a", 61.5),
        api_sample(1_500, "b", 3.0),
        api_sample(1_700, "b", 2.5),
        api_sample(1_800, "b", 4.0),
    ];
    let lv = live("b", 5.0);
    let now = micros((w + hold + 200) as f64);
    let base = day_spend(&hist, MID, Some(&lv), now);
    // 12 - 10 and 61.5 - 60 for the one, 5 - 3 for the other.
    assert_eq!((base.total, base.sessions), (micros(5.5), 2));
    for shift in 1..hist.len() {
        let mut other = hist.clone();
        other.rotate_left(shift);
        other.swap(0, 3);
        other.reverse();
        let d = day_spend(&other, MID, Some(&lv), now);
        assert_eq!((d.total, d.sessions), (base.total, base.sessions));
    }
}

#[test]
fn the_burn_of_separate_sessions_adds_up() {
    let one = vec![api_sample(0, "a", 0.0), api_sample(3600, "a", 2.0)];
    let two = vec![
        api_sample(3000, "b", 8.0),
        api_sample(3600, "b", 8.1),
        api_sample(0, "c", 1.0),
        api_sample(1800, "c", 4.0),
    ];
    let now = micros(3600.0);
    let a = day_rate(&one, None, WINDOW, now).unwrap();
    let b = day_rate(&two, None, WINDOW, now).unwrap();
    let mut all = one.clone();
    all.extend(two);
    let sum = day_rate(&all, None, WINDOW, now).unwrap();
    assert_eq!(sum.per_hr, a.per_hr + b.per_hr);
    assert_eq!(sum.warn_per_hr, a.warn_per_hr + b.warn_per_hr);
    assert!(sum.warn_per_hr < sum.per_hr);
    // A session without a fit adds nothing.
    all.push(api_sample(3590, "d", 9.0));
    assert_eq!(day_rate(&all, None, WINDOW, now), Some(sum));
}

#[test]
fn budget_outcomes() {
    let out = |today: f64, rate: Option<DayRate>, mid: i64| {
        budget_outcome(micros(today), micros(20.0), rate, mid, 0)
    };
    assert_eq!(out(20.0, None, 100), BudgetOutcome::Over);
    assert_eq!(out(19.999999, None, 100), BudgetOutcome::RollsOverFirst);
    assert_eq!(
        out(10.0, rated(5.0), 7_201),
        BudgetOutcome::HitsBudget { eta_secs: 7_200 }
    );
    // Exactly at midnight is not before it.
    assert_eq!(out(10.0, rated(5.0), 7_200), BudgetOutcome::RollsOverFirst);
    // A cent an hour is negligible.
    assert_eq!(out(19.99, rated(0.01), 90_000), BudgetOutcome::RollsOverFirst);
    assert_eq!(
        out(19.99, rated(0.010001), 90_000),
        BudgetOutcome::HitsBudget { eta_secs: 3_599 }
    );
}

#[test]
fn a_budget_lands_where_double_precision_puts_it() {
    for today10 in 0..200 {
        for rate10 in [1, 3, 7, 8, 9, 11, 13, 16, 18, 36, 99] {
            let (today, rate) = (today10 as f64 / 10.0, rate10 as f64 / 10.0);
            let eta = (20.0 - today) / rate * 3600.0;
            for left in [36_000, eta as i64, eta as i64 + 1] {
                let got = budget_outcome(micros(today), micros(20.0), rated(rate), left, 0);
                let want = if eta > 0.0 && eta < left as f64 {
                    BudgetOutcome::HitsBudget { eta_secs: eta as i64 }
                } else {
                    BudgetOutcome::RollsOverFirst
                };
                assert_eq!(got, want, "{today} {rate} {left}");
            }
        }
    }
}
