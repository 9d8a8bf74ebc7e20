use quotaline::history::{
    has_window_data, is_api_sample, is_sub_sample, lacks_window_data, session_key, Sample,
    SubSessions, MAX_AGE_SECS, MAX_ANCHOR_SESSIONS, MAX_ENTRIES, MAX_ENTRIES_API, SUB_HOLD_SECS,
};
use quotaline::json::{payload_mode, read_payload, Json, Mode};
use quotaline::log::log_sample;

fn micros(x: f64) -> i64 {
    (x * 1e6).round() as i64
}

fn usd(x: f64) -> Option<i64> {
    Some(micros(x))
}

/// The history as one machine keeps it.
struct Store(Vec<Sample>);

impl Store {
    fn new() -> Self {
        Store(Vec::new())
    }
    fn log(&mut self, input: &Json, now: i64) {
        if let Some(h) = log_sample(&self.0, input, now) {
            self.0 = h;
        }
    }
}

fn sub_payload(usd: f64) -> Json {
    read_payload(&format!(
        r#"{{
            "session_id": "subsession-aaaa-bbbb",
            "cost": {{"total_cost_usd": {usd}}},
            "rate_limits": {{"five_hour": {{"used_percentage": 11, "resets_at": 9000}}}}
        }}"#
    ))
}

fn api_payload(usd: f64) -> Json {
    read_payload(&format!(
        r#"{{
            "session_id": "apisession-cccc-dddd",
            "cost": {{"total_cost_usd": {usd}, "total_duration_ms": 90000}}
        }}"#
    ))
}

/// One session id under either auth mode — `--resume` reuses the id, so the same session can
/// report windows for hours and then bill to an API key for the rest of its life.
fn payload(sid: &str, usd: f64, windows: bool) -> Json {
    let limits = if windows {
        r#", "rate_limits": {"five_hour": {"used_percentage": 7, "resets_at": 9000}}"#
    } else {
        ""
    };
    read_payload(&format!(
        r#"{{"session_id": "{sid}", "cost": {{"total_cost_usd": {usd}}}{limits}}}"#
    ))
}

#[test]
fn gating_matrix() {
    let mut d = Store::new();
    // Subscription payload → logged, api=false, windows recorded.
    d.log(&sub_payload(3.5), 1000);
    // API payload with real cost → logged, api=true, sid truncated.
    d.log(&api_payload(1.25), 1100);
    // Empty rate_limits + cost (subscription transient) → never logged as api.
    d.log(
        &read_payload(r#"{"rate_limits": {}, "cost": {"total_cost_usd": 9.0}}"#),
        1200,
    );
    // API shape but zero cost → not logged.
    d.log(
        &read_payload(r#"{"cost": {"total_cost_usd": 0, "total_duration_ms": 5}}"#),
        1300,
    );
    // Nothing usable → not logged.
    d.log(&Json::Null, 1400);

    let h = &d.0;
    assert_eq!(h.len(), 2, "only the sub and real-cost api payloads log");
    assert!(!h[0].api && h[0].h5 == usd(11.0) && h[0].usd == usd(3.5));
    assert!(h[1].api && h[1].usd == usd(1.25));
    assert_eq!(h[1].sid.as_deref(), Some("apisession-c")); // 12-char truncation
    assert!(is_api_sample(&h[1]) && !is_api_sample(&h[0]));
}

#[test]
fn a_sample_carries_every_field_of_its_payload() {
    let mut d = Store::new();
    d.log(
        &read_payload(
            r#"{
                "session_id": "s",
                "cost": {"total_cost_usd": "2.5"},
                "context_window": {"total_input_tokens": 67000, "total_output_tokens": 12},
                "rate_limits": {
                    "five_hour": {"utilization": 25.5, "reset_at": 9000},
                    "seven_day": {"percent": 9, "resets": "70000.5"}
                }
            }"#,
        ),
        77,
    );
    let s = &d.0[0];
    assert_eq!(s.t, 77);
    assert_eq!((s.h5, s.h5r), (usd(25.5), usd(9000.0)));
    assert_eq!((s.d7, s.d7r), (usd(9.0), usd(70000.5)));
    assert_eq!(s.sid.as_deref(), Some("s"));
    assert_eq!(s.usd, usd(2.5));
    assert_eq!((s.tin, s.tout), (Some(67_000), Some(12)));
    assert!(!s.api && !s.sub);
}

#[test]
fn throttle_and_prune() {
    let mut d = Store::new();
    d.log(&api_payload(1.0), 1000);
    d.log(&api_payload(2.0), 1030); // 30s later: throttled away
    assert_eq!(d.0.len(), 1);
    d.log(&api_payload(2.0), 1090); // 90s later: logged
    assert_eq!(d.0.len(), 2);

    // Age prune: both samples are far older than MAX_AGE_SECS from this "now".
    d.log(&api_payload(3.0), 1000 + MAX_AGE_SECS + 10_000);
    assert_eq!(d.0.len(), 1, "stale samples age out");
    assert_eq!(d.0[0].usd, usd(3.0));
}

#[test]
fn count_cap_is_mode_aware() {
    // Subscription-only histories keep the tight cap.
    let mut hist: Vec<Sample> = (0..MAX_ENTRIES_API)
        .map(|i| Sample {
            t: 10_000 + i as i64,
            h5: usd(1.0),
            ..Default::default()
        })
        .collect();
    let now = 10_000 + MAX_ENTRIES_API as i64 + 100;
    let kept = log_sample(&hist, &sub_payload(1.0), now).unwrap();
    assert_eq!(kept.len(), MAX_ENTRIES);
    assert_eq!(kept.last().unwrap().t, now, "the oldest go first");

    // One api sample in the mix → the larger cap applies.
    hist[0].api = true;
    hist[0].usd = usd(1.0);
    let kept = log_sample(&hist, &sub_payload(1.0), now).unwrap();
    assert_eq!(kept.len(), MAX_ENTRIES_API);
}

#[test]
fn stripped_samples_never_count_but_never_feed_subscription_maths() {
    // A sample without the flag must not count as spend (that shape is identical to a
    // degenerate subscription sample whose windows didn't parse — counting it would fabricate
    // dollars)…
    let stripped = Sample {
        t: 1,
        sid: Some("apisess".into()),
        usd: usd(12.4),
        ..Default::default()
    };
    assert!(!is_api_sample(&stripped));
    // …but it must also stay out of subscription-percentage maths, where excluding a
    // maybe-API sample is the safe direction.
    assert!(lacks_window_data(&stripped));

    // A subscription sample with any window trace is unambiguous on both counts.
    let sub = Sample {
        t: 1,
        h5: usd(3.0),
        sid: Some("subsess".into()),
        usd: usd(9.9),
        ..Default::default()
    };
    assert!(!is_api_sample(&sub));
    assert!(!lacks_window_data(&sub));

    // The explicit flag is what counts.
    let flagged = Sample {
        api: true,
        ..stripped.clone()
    };
    assert!(is_api_sample(&flagged));
}

#[test]
fn durable_switch_logs_probes_first_then_spend() {
    let mut d = Store::new();
    let sid = "switcher-1111-2222";
    // Hours on a subscription.
    d.log(&payload(sid, 20.0, true), 0);
    d.log(&payload(sid, 28.0, true), 10_000);
    // Resumed under an API key: same id, no windows, cost climbing. The samples still
    // land — demoted to window-less probes, which is what the proof is built from.
    d.log(&payload(sid, 28.0, false), 10_100);
    d.log(&payload(sid, 29.0, false), 11_000);
    assert_eq!(
        d.0.len(),
        4,
        "the switched session stays visible in the history"
    );
    assert!(
        d.0[2..].iter().all(|s| !s.api && lacks_window_data(s)),
        "cost that moved only moments ago proves nothing yet"
    );

    // Past the hold as timed from the first probe — but the wait runs from the first
    // *movement*, so it has not elapsed yet.
    d.log(&payload(sid, 32.0, false), 10_100 + SUB_HOLD_SECS);
    assert_eq!(d.0.len(), 5, "the sample was written, not thrown away");
    assert!(
        !d.0.last().unwrap().api,
        "the wait is timed from the movement, not the first sight of the session"
    );

    // Past it from the movement, with the counter proving money kept moving while no
    // windows were reported: the session is billing to an API key and its spend counts.
    d.log(&payload(sid, 33.0, false), 11_000 + SUB_HOLD_SECS);
    assert!(d.0.last().unwrap().api, "a proven switch logs as spend");
}

#[test]
fn an_idle_resume_cannot_spend_the_wait_down_before_its_counter_moves() {
    let mut d = Store::new();
    let sid = "idled-5555-6666";
    d.log(&payload(sid, 12.0, true), 0);
    // Resumed and left alone for hours: probes accumulate, counter frozen.
    for t in [100, 5_000, 20_000] {
        d.log(&payload(sid, 12.0, false), t);
    }
    // The first response finally arrives, and its cost can reach the payload a render
    // before `rate_limits` do. Timed from the first probe the wait would be long spent
    // and this single moment of movement would reclassify a Pro/Max session.
    d.log(&payload(sid, 12.4, false), 20_100);
    // Assert the write happened before reading anything into its flag: a sample the
    // throttle dropped would satisfy the `all(!api)` check for the wrong reason.
    assert_eq!(d.0.last().map(|s| s.usd), Some(usd(12.4)), "movement logged");
    assert!(
        d.0.iter().all(|s| !s.api),
        "a moment of movement after a frozen idle is not a switch"
    );
}

#[test]
fn a_frozen_counter_never_proves_a_switch() {
    let mut d = Store::new();
    let sid = "resumed-3333-4444";
    d.log(&payload(sid, 12.0, true), 0);
    // Resumed and left alone: cost restored, `rate_limits` not yet, and the counter
    // unmoving because no response has arrived. However long that lasts, it is the
    // subscription transient rather than a change of billing.
    for t in [100, 5_000, 20_000, 100_000] {
        d.log(&payload(sid, 12.0, false), t);
    }
    assert!(d.0.iter().all(|s| !s.api), "no movement, no promotion — ever");
    // And the frozen value is recorded once, not once a minute: a session that idles
    // for hours must not churn its own window samples out of the retention cap, since
    // losing them is what would leave nothing holding it.
    assert_eq!(d.0.len(), 2, "one window sample, one probe");
}

#[test]
fn a_subscription_payload_whose_windows_dont_parse_is_still_recorded_as_one() {
    // Stored from the parsed values alone it would be indistinguishable from a hold probe —
    // cost, no windows — and everything downstream would read it as evidence of the opposite
    // billing.
    let mut d = Store::new();
    let payload = read_payload(
        r#"{
            "session_id": "nullwindows-1",
            "cost": {"total_cost_usd": 4.0},
            "rate_limits": {"five_hour": null, "seven_day": null}
        }"#,
    );
    assert_eq!(payload_mode(&payload), Mode::Subscription);
    d.log(&payload, 1000);
    let h = &d.0;
    assert!(h[0].sub && !h[0].api && !has_window_data(&h[0]));
    assert!(is_sub_sample(&h[0]), "the verdict is kept");

    // So the session is still classified as a subscription: held, and its shadow cost
    // stays out of the day figure.
    let subs = SubSessions::build(h);
    assert!(subs.active_at("nullwindows-", 1000));
    assert!(subs
        .hold("nullwindows-", usd(90.0), 1000 + 10 * SUB_HOLD_SECS)
        .is_some());
}

#[test]
fn windows_that_are_not_finite_count_as_unread() {
    let mut d = Store::new();
    d.log(
        &read_payload(
            r#"{
                "session_id": "oddwindows",
                "cost": {"total_cost_usd": 4.0},
                "rate_limits": {"five_hour": {"used_percentage": "inf", "resets_at": "nan"}}
            }"#,
        ),
        1000,
    );
    assert!(d.0[0].sub && !has_window_data(&d.0[0]));
}

#[test]
fn a_change_of_billing_shape_is_never_lost_to_the_shared_throttle() {
    // The throttle is global, so a busy peer session can hold the slot indefinitely.
    // Losing an ordinary sample to that is a lost data point; losing the one that marks
    // a phase boundary loses the only evidence the phase happened.
    let mut d = Store::new();
    let sid = "shifter-1234";
    let peer = payload("peer-session", 1.0, true);
    d.log(&payload(sid, 5.0, true), 0);
    d.log(&peer, 1000); // peer takes the slot…
    d.log(&payload(sid, 5.0, false), 1030); // …but the switch still lands
    assert_eq!(d.0.len(), 3);
    assert!(
        lacks_window_data(d.0.last().unwrap()),
        "the probe was written"
    );

    // And back again: the windowed sample that ends the quiet period also lands.
    d.log(&peer, 1100);
    d.log(&payload(sid, 5.5, true), 1130);
    assert!(
        has_window_data(d.0.last().unwrap()),
        "the phase boundary was written"
    );

    // But an unchanged shape still waits its turn, so the exemption can't be a
    // back door around the throttle.
    d.log(&peer, 1200);
    d.log(&payload(sid, 6.0, true), 1230);
    assert_eq!(d.0.len(), 6);
}

#[test]
fn a_busy_peer_cannot_keep_a_switched_session_held() {
    // A peer takes the shared slot every minute. The switched session's later probes have a
    // slot of their own, so its counter is seen moving and the hold lifts.
    let mut d = Store::new();
    let sid = "switched-777";
    d.log(&payload(sid, 5.0, true), 0);
    let mut released = None;
    for i in 1..120 {
        let t = i * 60;
        d.log(&payload("peer-session", 1.0, true), t);
        let before = d.0.len();
        d.log(&payload(sid, 5.0 + 0.1 * i as f64, false), t + 30);
        assert!(d.0.len() <= before + 1);
        if d.0.last().unwrap().api && released.is_none() {
            released = Some(t + 30);
        }
    }
    let released = released.expect("the switch is proven");
    assert!(
        (SUB_HOLD_SECS..=SUB_HOLD_SECS + 300).contains(&released),
        "released at {released}"
    );
    // A frozen counter takes no slot beside the first.
    let mut f = Store::new();
    f.log(&payload(sid, 5.0, true), 0);
    for i in 1..120 {
        f.log(&payload("peer-session", 1.0, true), i * 60);
        f.log(&payload(sid, 5.0, false), i * 60 + 30);
    }
    assert_eq!(f.0.iter().filter(|s| lacks_window_data(s)).count(), 1);
}

#[test]
fn pruning_never_evicts_a_quiet_sessions_last_window_sample() {
    // Retention must not decide classification. Once that sample is gone there is
    // nothing left to hold the session, and a resumed Pro/Max session goes straight to
    // the API-key path with its shadow counter.
    let mut d = Store::new();
    let sid = "anchored-1234";
    d.log(&payload(sid, 5.0, true), 0); // the anchor
    d.log(&payload(sid, 5.0, false), 60); // and it goes quiet
    // Another session then floods the file well past the cap.
    d.0.extend((0..MAX_ENTRIES + 50).map(|i| Sample {
        t: 1_000 + i as i64,
        h5: usd(3.0),
        sid: Some("noisy-session".into()),
        ..Default::default()
    }));
    // Several write cycles, not one. Protecting the window sample by itself survives the
    // first prune and then decays: the cost sample that marks the session quiet is
    // ordinary, so it goes first, and on the next pass the anchor no longer qualifies.
    for i in 0..4 {
        d.log(&payload("noisy-session", 1.0, true), 100_000 + i * 100);
        let after = &d.0;
        assert!(
            after.len() <= MAX_ENTRIES + 8,
            "cycle {i}: still pruned: {}",
            after.len()
        );
        assert!(
            after
                .iter()
                .any(|s| s.sid.as_deref() == Some("anchored-123") && has_window_data(s)),
            "cycle {i}: the quiet session's window sample survived the flood"
        );
        // And it still does its job: the session is held, not reclassified.
        assert!(
            SubSessions::build(after)
                .hold("anchored-123", usd(9.0), 100_000 + i * 100)
                .is_some(),
            "cycle {i}: still held"
        );
    }
}

#[test]
fn the_reserved_set_is_bounded_and_keeps_the_most_recent() {
    // Sessions end while quiet all the time. Reserving samples for every one of them
    // would grow past the retention cap itself and the file with it.
    let mut hist = Vec::new();
    for i in 0..(MAX_ANCHOR_SESSIONS as i64 * 3) {
        let sid = format!("session-{i:03}");
        hist.push(Sample {
            t: i * 100,
            h5: usd(5.0),
            sid: Some(sid.clone()),
            ..Default::default()
        });
        hist.push(Sample {
            t: i * 100 + 10,
            sid: Some(sid),
            usd: usd(1.0),
            ..Default::default()
        });
    }
    let anchors = SubSessions::build(&hist).anchors();
    assert_eq!(anchors.len(), MAX_ANCHOR_SESSIONS * 2, "two per session");
    // The newest quiet session is reserved; the oldest is given up first.
    let newest = format!("session-{:03}", MAX_ANCHOR_SESSIONS * 3 - 1);
    assert!(anchors.iter().any(|(k, _)| *k == newest));
    assert!(!anchors.iter().any(|(k, _)| k == "session-000"));
    assert_eq!(anchors[0], (newest.clone(), 4_700));
    assert_eq!(anchors[1], (newest, 4_710));
}

#[test]
fn level_sessions_are_reserved_in_the_order_of_their_ids() {
    let mut hist = Vec::new();
    for sid in ["b", "a", "c"] {
        hist.push(Sample {
            t: 1,
            h5: usd(5.0),
            sid: Some(sid.into()),
            ..Default::default()
        });
        hist.push(Sample {
            t: 2,
            sid: Some(sid.into()),
            usd: usd(1.0),
            ..Default::default()
        });
    }
    let anchors = SubSessions::build(&hist).anchors();
    let ids: Vec<&str> = anchors.iter().map(|a| a.0.as_str()).collect();
    assert_eq!(ids, ["a", "a", "b", "b", "c", "c"]);
}

#[test]
fn one_bump_then_silence_is_not_a_switch() {
    // The counter never falls, so a rule measured against the restored value would stay
    // satisfied forever after a single bump — 45 minutes later an idle Pro/Max session
    // would be reclassified and its shadow estimate presented as money.
    let hist = vec![
        Sample {
            t: 0,
            h5: usd(5.0),
            sid: Some("s".into()),
            usd: usd(10.0),
            ..Default::default()
        },
        Sample {
            t: 60,
            sid: Some("s".into()),
            usd: usd(10.0), // restored
            ..Default::default()
        },
        Sample {
            t: 120,
            sid: Some("s".into()),
            usd: usd(10.5), // one bump, then nothing ever again
            ..Default::default()
        },
    ];
    let subs = SubSessions::build(&hist);
    assert!(subs.hold("s", usd(10.5), 120 + SUB_HOLD_SECS).is_some());
    assert!(subs
        .hold("s", usd(10.5), 120 + 100 * SUB_HOLD_SECS)
        .is_some());
    // A forward clock step is not spending either.
    assert!(subs.hold("s", usd(10.5), i64::MAX).is_some());
    // Spending that actually continues does release it.
    assert_eq!(subs.hold("s", usd(11.0), 120 + SUB_HOLD_SECS), None);
}

#[test]
fn a_repeated_probe_value_is_never_written_twice() {
    // The skip compares against the session's *newest* window-less counter. Against the
    // oldest, every repeat after a movement would be written — the ~1/min churn that
    // evicts the window samples the hold rests on.
    let mut d = Store::new();
    let sid = "repeating-9999";
    d.log(&payload(sid, 12.0, true), 0);
    d.log(&payload(sid, 12.0, false), 100); // anchor
    d.log(&payload(sid, 12.4, false), 200); // movement
    for t in [300, 400, 500, 600] {
        d.log(&payload(sid, 12.4, false), t); // and then quiet again
    }
    assert_eq!(d.0.len(), 3);
}

#[test]
fn a_counter_restored_above_the_last_windowed_one_is_not_movement() {
    // The global throttle means a session usually keeps spending after its last logged
    // sample, so a resumed counter sits legitimately above the last value recorded with
    // windows. Judging movement against *that* would make the very first probe look
    // like a switch, and 45 minutes later an idle Pro/Max session would be reclassified.
    let hist = vec![
        Sample {
            t: 0,
            h5: usd(5.0),
            sid: Some("s".into()),
            usd: usd(28.0), // last windowed counter
            ..Default::default()
        },
        Sample {
            t: 60,
            sid: Some("s".into()),
            usd: usd(30.0), // restored higher: $2 spent while unsampled
            ..Default::default()
        },
        Sample {
            t: 3_000,
            sid: Some("s".into()),
            usd: usd(30.0), // and frozen from there
            ..Default::default()
        },
    ];
    let subs = SubSessions::build(&hist);
    assert!(subs
        .hold("s", usd(30.0), 60 + 10 * SUB_HOLD_SECS)
        .is_some());
}

#[test]
fn windows_returning_restart_the_proof_clock() {
    // Windows can lapse and come back mid-session. Evidence gathered while they were
    // missing says nothing once they return, or a session would be promoted moments
    // after proving itself a subscription.
    let win = |t| Sample {
        t,
        h5: usd(5.0),
        sid: Some("s".into()),
        usd: usd(10.0),
        ..Default::default()
    };
    let probe = |t, u| Sample {
        t,
        sid: Some("s".into()),
        usd: usd(u),
        ..Default::default()
    };
    let subs = SubSessions::build(&[win(0), probe(60, 10.0), probe(3_000, 11.0), win(3_100)]);
    assert_eq!(
        subs.hold("s", usd(12.0), 3_100 + SUB_HOLD_SECS),
        Some(SUB_HOLD_SECS),
        "the clock restarts from the windows coming back"
    );
}

#[test]
fn any_window_field_marks_a_subscription_sample() {
    // A payload carrying only `seven_day` is still subscription-shaped; filed under
    // costs instead, it would become proof-of-switch material and leave the report's
    // $/1% anchor reading API-key dollars.
    for s in [
        Sample {
            d7: usd(1.0),
            ..Default::default()
        },
        Sample {
            h5r: usd(1.0),
            ..Default::default()
        },
        Sample {
            d7r: usd(1.0),
            ..Default::default()
        },
    ] {
        assert!(has_window_data(&s));
        assert!(!lacks_window_data(&Sample {
            usd: usd(1.0),
            ..s
        }));
    }
}

#[test]
fn an_upgraded_history_keeps_its_pro_max_retention() {
    // A stray `api`-beside-windows sample of the resume transient must not flip a
    // subscription-only machine onto the API retention regime, whose age prune would
    // discard the multi-day history the report's weekly $/1% anchor needs.
    let seed = vec![
        Sample {
            t: 1000,
            sid: Some("subsession-a".into()),
            usd: usd(9.0),
            api: true, // the stray
            ..Default::default()
        },
        Sample {
            t: 1100,
            h5: usd(11.0),
            sid: Some("subsession-a".into()),
            usd: usd(9.0), // the truth, moments later
            ..Default::default()
        },
    ];
    let kept = log_sample(&seed, &sub_payload(10.0), 1100 + MAX_AGE_SECS + 1000).unwrap();
    assert_eq!(kept.len(), 3, "a day-old subscription history survives");
}

#[test]
fn subscription_classification_is_about_a_moment_not_a_session_id() {
    let win = |t| Sample {
        t,
        h5: usd(5.0),
        sid: Some("s".into()),
        usd: usd(1.0),
        ..Default::default()
    };
    let subs = SubSessions::build(&[win(1_000)]);
    // A sample taken beside the windows is shadowed on either side — the resume
    // transient logs its restored cost *before* they repopulate.
    assert!(subs.active_at("s", 1_000 - SUB_HOLD_SECS));
    assert!(subs.active_at("s", 1_000 + SUB_HOLD_SECS));
    // One taken a day later is a different session's worth of evidence.
    assert!(!subs.active_at("s", 1_000 + SUB_HOLD_SECS + 1));
    assert!(!subs.active_at("s", 100_000));
    assert!(!subs.active_at("never-seen", 1_000));
}

#[test]
fn the_hold_lifts_only_on_time_and_movement_together() {
    let windowed = Sample {
        t: 0,
        h5: usd(5.0),
        sid: Some("s".into()),
        usd: usd(10.0),
        ..Default::default()
    };
    let probe = |t, u| Sample {
        t,
        sid: Some("s".into()),
        usd: usd(u),
        ..Default::default()
    };
    // Restored at $10 (the value movement is judged against) and frozen for hours —
    // the resume transient.
    let frozen = SubSessions::build(&[windowed.clone(), probe(60, 10.0), probe(20_000, 10.0)]);
    // The same session, its counter finally moving at t=20_000.
    let moving = SubSessions::build(&[windowed, probe(60, 10.0), probe(20_000, 10.5)]);

    // A session the history has never seen with windows is not held at all.
    assert_eq!(frozen.hold("fresh-api-sid", usd(1.0), 0), None);
    // A frozen counter is held however long it idles: the wait never starts.
    assert!(frozen
        .hold("s", usd(10.0), 20_000 + 10 * SUB_HOLD_SECS)
        .is_some());
    // Movement buys no credit for the idling that preceded it — the wait runs from
    // where the counter was first seen above the value it was restored at.
    assert!(moving
        .hold("s", usd(12.0), 20_000 + SUB_HOLD_SECS - 1)
        .is_some());
    // Both together release it.
    assert_eq!(moving.hold("s", usd(12.0), 20_000 + SUB_HOLD_SECS), None);
    // A live counter back below the restored value is not movement, whatever the
    // history holds; nor is a payload carrying no cost at all.
    assert!(moving
        .hold("s", usd(9.0), 20_000 + SUB_HOLD_SECS)
        .is_some());
    assert!(moving.hold("s", None, 20_000 + SUB_HOLD_SECS).is_some());
    // While held, the quiet time is measured from the last window data — what the
    // status line reports, and the only honest thing it knows.
    assert_eq!(frozen.hold("s", usd(10.0), 5_000), Some(5_000));
    // Once released, a session stays released as its counter climbs.
    assert_eq!(moving.hold("s", usd(99.0), 20_000 + 9 * SUB_HOLD_SECS), None);
}

#[test]
fn session_keys() {
    assert_eq!(
        session_key(Some("abcdefghijklmnop")).as_deref(),
        Some("abcdefghijkl")
    );
    assert_eq!(session_key(Some("short")).as_deref(), Some("short"));
    assert_eq!(session_key(Some("")), None);
    assert_eq!(session_key(None), None);
}

#[test]
fn session_keys_are_stable_and_count_characters() {
    let key = session_key(Some("ééééééééééééé")).unwrap();
    assert_eq!(key, "éééééééééééé");
    assert_eq!(session_key(Some(&key)), Some(key));
}

#[test]
fn what_a_session_last_showed() {
    let hist = vec![
        Sample {
            t: 100,
            sid: Some("s".into()),
            usd: usd(1.0),
            ..Default::default()
        },
        Sample {
            t: 300,
            d7: usd(5.0),
            sid: Some("s".into()),
            ..Default::default()
        },
        Sample {
            t: 200,
            sid: Some("s".into()),
            usd: usd(2.0),
            ..Default::default()
        },
        Sample {
            t: 200,
            sid: Some("s".into()),
            usd: usd(3.0),
            ..Default::default()
        },
        Sample {
            t: 50,
            sid: Some("c".into()),
            usd: usd(9.0),
            ..Default::default()
        },
    ];
    let subs = SubSessions::build(&hist);
    assert_eq!(subs.last_sample("s"), Some((300, true)));
    assert_eq!(subs.last_sample("c"), Some((50, false)));
    assert_eq!(subs.last_sample("x"), None);
    assert_eq!(subs.last_cost("s"), usd(3.0), "the last listed of one moment");
    assert_eq!(subs.last_cost("x"), None);
    assert_eq!(subs.last_window_at("s", 299), None);
    assert_eq!(subs.last_window_at("s", 300), Some(300));
    assert!(subs.windowed_between("s", 299, 301));
    assert!(!subs.windowed_between("s", 300, 400));
    assert!(!subs.windowed_between("c", 0, 400));
}
