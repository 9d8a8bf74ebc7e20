//! Laws of the day's spend over whole histories: what a session's burn is fitted over, and what
//! each session adds to the day.

use vstd::prelude::*;

use crate::burn::{in_micros, readings, slope, slope_needs_two_moments, Reading};
use crate::history::{
    last_time, lemma_last_time, lemma_session_points, near_window, not_after, on_subscription,
    sample_key, shows_windows, window_before, window_between, windows_in, Sample,
};
use crate::num::UNIT;
use crate::rates::{
    never_sinks, pairs_apart, pairs_together, the_slope_is_least_squares,
    what_never_sinks_has_no_negative_slope,
};
use crate::series::{keys_in, lemma_push_contains, points_of, Event, Point};
use crate::spend::{
    an_unbroken_run_is_charged_in_full, attributable, baseline, better, by_moment, charge, charges,
    day_rate_of, day_total, fit_rate, fit_span, fitted, highest, in_current_run, in_secs,
    insert_by_moment, lemma_highest, live_key, movement, rates, run_events, session_fit,
    sorting_orders_and_keeps, spend_events, tally, today_events, whole_secs, LiveCounter,
};

verus! {

// ---------------------------------------------------------------------------------------
// What a burn is fitted over
// ---------------------------------------------------------------------------------------

/// Whether the session `k` was under a subscription no more than 45 minutes before or after `t`.
pub open spec fn subscribed_around(hist: Seq<Sample>, k: Seq<char>, t: int) -> bool {
    exists|i: int|
        0 <= i < hist.len() && shows_windows(#[trigger] hist[i], k) && -2_700 <= hist[i].t - t <= 2_700
}

/// Whether the session `k` was under a subscription at `t` or later, and no later than `end`.
pub open spec fn subscribed_since(hist: Seq<Sample>, k: Seq<char>, t: int, end: int) -> bool {
    exists|i: int|
        0 <= i < hist.len() && shows_windows(#[trigger] hist[i], k) && t <= hist[i].t <= end
}

spec fn subscribed_at(hist: Seq<Sample>, k: Seq<char>, t: i64) -> bool {
    exists|j: int| 0 <= j < hist.len() && shows_windows(#[trigger] hist[j], k) && hist[j].t == t
}

proof fn lemma_window_at(hist: Seq<Sample>, k: Seq<char>)
    ensures
        forall|i: int|
            0 <= i < windows_in(hist, k).len() ==> subscribed_at(
                hist,
                k,
                (#[trigger] windows_in(hist, k)[i]).0,
            ),
        forall|j: int|
            0 <= j < hist.len() && shows_windows(#[trigger] hist[j], k) ==> windows_in(
                hist,
                k,
            ).contains((hist[j].t, 0i64)),
{
    let ws = windows_in(hist, k);
    assert forall|i: int| 0 <= i < ws.len() implies subscribed_at(hist, k, (#[trigger] ws[i]).0) by {
        assert(ws.contains(ws[i]));
        lemma_session_points(hist, k, ws[i]);
        let w = choose|w: Sample| #[trigger]
            hist.contains(w) && sample_key(w) == Some(k) && on_subscription(w) && w.t == ws[i].0;
        assert(shows_windows(hist[hist.index_of(w)], k));
    }
    assert forall|j: int| 0 <= j < hist.len() && shows_windows(#[trigger] hist[j], k) implies ws.contains(
        (hist[j].t, 0i64),
    ) by {
        lemma_session_points(hist, k, (hist[j].t, 0i64));
        assert(hist.contains(hist[j]));
    }
}

pub(crate) proof fn lemma_near(hist: Seq<Sample>, k: Seq<char>, t: int)
    ensures
        near_window(windows_in(hist, k), t) == subscribed_around(hist, k, t),
{
    let ws = windows_in(hist, k);
    lemma_window_at(hist, k);
    if near_window(ws, t) {
        let i = choose|i: int| 0 <= i < ws.len() && -2_700 <= (#[trigger] ws[i]).0 - t <= 2_700;
        let j = choose|j: int|
            0 <= j < hist.len() && shows_windows(#[trigger] hist[j], k) && hist[j].t == ws[i].0;
        assert(shows_windows(hist[j], k));
    }
    if subscribed_around(hist, k, t) {
        let j = choose|j: int|
            0 <= j < hist.len() && shows_windows(#[trigger] hist[j], k) && -2_700 <= hist[j].t - t
                <= 2_700;
        let w: Point = (hist[j].t, 0i64);
        assert(ws.contains(w));
        assert(ws[ws.index_of(w)] == w);
    }
}

proof fn lemma_not_after(points: Seq<Point>, t: int, p: Point)
    ensures
        not_after(points, t).contains(p) <==> points.contains(p) && p.0 <= t,
    decreases points.len(),
{
    if points.len() > 0 {
        lemma_not_after(points.drop_last(), t, p);
        assert(points =~= points.drop_last().push(points.last()));
        lemma_push_contains(points.drop_last(), points.last(), p);
        lemma_push_contains(not_after(points.drop_last(), t), points.last(), p);
    }
}

proof fn lemma_since(hist: Seq<Sample>, k: Seq<char>, t: int, end: int)
    ensures
        (window_before(windows_in(hist, k), end) matches Some(w) && t <= w) == subscribed_since(
            hist,
            k,
            t,
            end,
        ),
{
    let ws = windows_in(hist, k);
    let kept = not_after(ws, end);
    lemma_window_at(hist, k);
    if kept.len() > 0 {
        lemma_last_time(kept);
        let i = choose|i: int| 0 <= i < kept.len() && (#[trigger] kept[i]).0 == last_time(kept);
        assert(kept.contains(kept[i]));
        lemma_not_after(ws, end, kept[i]);
        let n = ws.index_of(kept[i]);
        assert(ws[n] == kept[i]);
        let j = choose|j: int|
            0 <= j < hist.len() && shows_windows(#[trigger] hist[j], k) && hist[j].t == ws[n].0;
        assert(shows_windows(hist[j], k));
    }
    if subscribed_since(hist, k, t, end) {
        let j = choose|j: int|
            0 <= j < hist.len() && shows_windows(#[trigger] hist[j], k) && t <= hist[j].t <= end;
        let w: Point = (hist[j].t, 0i64);
        assert(ws.contains(w));
        lemma_not_after(ws, end, w);
        assert(kept[kept.index_of(w)] == w);
    }
}

/// A sample's counter is money exactly if the sample is flagged, names its session, and was not
/// taken within 45 minutes of a moment at which that session was under a subscription.
pub proof fn a_counter_around_a_subscription_is_no_money(hist: Seq<Sample>, s: Sample)
    ensures
        attributable(hist, s) <==> s.api && s.usd is Some && sample_key(s) is Some
            && !subscribed_around(hist, sample_key(s)->0, s.t as int),
{
    if sample_key(s) is Some {
        lemma_near(hist, sample_key(s)->0, s.t as int);
    }
}

/// Whether a sample shows what the session `k` was billed, no more than `window` microseconds ago,
/// since it was last under a subscription, and not within 45 minutes of that.
pub open spec fn bills(hist: Seq<Sample>, k: Seq<char>, window: int, now: int) -> spec_fn(
    Sample,
) -> bool {
    |s: Sample|
        s.api && s.usd is Some && sample_key(s) == Some(k) && now - s.t * 1_000_000 <= window
            && !subscribed_around(hist, k, s.t as int) && !subscribed_since(
            hist,
            k,
            s.t as int,
            now / 1_000_000,
        )
}

pub open spec fn billed_at() -> spec_fn(Sample) -> Point {
    |s: Sample| (s.t, s.usd->0)
}

/// A sample's moment in microseconds, and its counter.
pub open spec fn bill_of() -> spec_fn(Sample) -> (int, int) {
    |s: Sample| (s.t * 1_000_000, s.usd->0 as int)
}

/// What the session `k` was seen to be billed in the trailing window.
pub open spec fn bills_seen(hist: Seq<Sample>, k: Seq<char>, window: int, now: int) -> Seq<
    (int, int),
> {
    hist.filter(bills(hist, k, window, now)).map_values(bill_of())
}

proof fn lemma_bills(hist: Seq<Sample>, part: Seq<Sample>, k: Seq<char>, window: int, now: int)
    requires
        0 <= now <= i64::MAX,
    ensures
        points_of(run_events(hist, part, window, now), k) == part.filter(
            bills(hist, k, window, now),
        ).map_values(billed_at()),
    decreases part.len(),
{
    reveal(Seq::filter);
    let pred = bills(hist, k, window, now);
    let events = run_events(hist, part, window, now);
    if part.len() > 0 {
        let head = part.drop_last();
        let s = part.last();
        lemma_bills(hist, head, k, window, now);
        let before = run_events(hist, head, window, now);
        let listed = head.filter(pred);
        if sample_key(s) == Some(k) {
            lemma_near(hist, k, s.t as int);
            lemma_since(hist, k, s.t as int, now / 1_000_000);
            assert(in_current_run(hist, s, window, now) == pred(s));
        }
        if in_current_run(hist, s, window, now) {
            assert(events.drop_last() =~= before);
        }
        if pred(s) {
            assert(part.filter(pred) == listed.push(s));
            assert(listed.push(s).map_values(billed_at()) =~= listed.map_values(billed_at()).push(
                (s.t, s.usd->0),
            ));
        }
    } else {
        assert(points_of(events, k) =~= part.filter(pred).map_values(billed_at()));
    }
}

proof fn lemma_bill_readings(hist: Seq<Sample>, k: Seq<char>, window: int, now: int)
    ensures
        readings(in_micros(hist.filter(bills(hist, k, window, now)).map_values(billed_at())))
            == bills_seen(hist, k, window, now),
{
    let picked = hist.filter(bills(hist, k, window, now));
    assert(UNIT == 1_000_000);
    assert(readings(in_micros(picked.map_values(billed_at()))) =~= picked.map_values(bill_of()));
}

proof fn lemma_insert_readings(s: Seq<Reading>, x: Reading)
    ensures
        readings(insert_by_moment(s, x)).to_multiset() == readings(s).to_multiset().insert(
            (x.0 as int, x.1 as int),
        ),
    decreases s.len(),
{
    broadcast use vstd::seq_lib::group_to_multiset_ensures;

    if s.len() > 0 && x.0 < s.last().0 {
        let head = s.drop_last();
        let last = (s.last().0 as int, s.last().1 as int);
        lemma_insert_readings(head, x);
        let q = insert_by_moment(head, x);
        assert(readings(q.push(s.last())) =~= readings(q).push(last));
        assert(readings(s) =~= readings(head).push(last));
        assert(readings(insert_by_moment(s, x)).to_multiset() =~= readings(s).to_multiset().insert(
            (x.0 as int, x.1 as int),
        ));
    } else {
        assert(readings(s.push(x)) =~= readings(s).push((x.0 as int, x.1 as int)));
    }
}

proof fn lemma_sorted_readings(p: Seq<Reading>)
    ensures
        readings(by_moment(p)).to_multiset() == readings(p).to_multiset(),
        by_moment(p).len() == p.len(),
        in_order(readings(by_moment(p))),
    decreases p.len(),
{
    broadcast use vstd::seq_lib::group_to_multiset_ensures;

    sorting_orders_and_keeps(p);
    let sorted = by_moment(p);
    assert forall|i: int, j: int| 0 <= i <= j < readings(sorted).len() implies (
    #[trigger] readings(sorted)[i]).0 <= (#[trigger] readings(sorted)[j]).0 by {
        assert(sorted[i].0 <= sorted[j].0);
    }
    if p.len() > 0 {
        lemma_sorted_readings(p.drop_last());
        lemma_insert_readings(by_moment(p.drop_last()), p.last());
        assert(readings(p) =~= readings(p.drop_last()).push(
            (p.last().0 as int, p.last().1 as int),
        ));
    } else {
        assert(readings(by_moment(p)) =~= readings(p));
    }
}

/// Whether points stand in the order of their moments.
pub open spec fn in_order(p: Seq<(int, int)>) -> bool {
    forall|i: int, j: int| 0 <= i <= j < p.len() ==> (#[trigger] p[i]).0 <= (#[trigger] p[j]).0
}

/// Whether every point lies before a moment.
pub open spec fn all_before(p: Seq<(int, int)>, now: int) -> bool {
    forall|i: int| 0 <= i < p.len() ==> (#[trigger] p[i]).0 < now
}

/// Whether the session `k` is the one that is rendering.
pub open spec fn renders(live: Option<LiveCounter>, k: Seq<char>) -> bool {
    live matches Some(lv) && lv.key == Some(k)
}

/// The burn of a session is fitted over what it was seen to be billed in the trailing window, in
/// time order. One that is rendering adds its counter now, unless it was under a subscription within
/// 45 minutes of now. One that is not is taken to stand now where it stood last, unless it was seen
/// now.
pub proof fn a_burn_is_fitted_over_the_bills(
    hist: Seq<Sample>,
    live: Option<LiveCounter>,
    window: int,
    now: i64,
    k: Seq<char>,
)
    requires
        now >= 0,
    ensures
        ({
            let seen = bills_seen(hist, k, window, now as int);
            let fit = readings(session_fit(hist, live, window, now, k));
            let n = seen.len() as int;
            let around = subscribed_around(hist, k, now as int / 1_000_000);
            &&& in_order(fit)
            &&& renders(live, k) && around ==> fit.to_multiset() == seen.to_multiset()
            &&& renders(live, k) && !around ==> fit.to_multiset() == seen.to_multiset().insert(
                (now as int, live->0.usd as int),
            )
            &&& !renders(live, k) && n > 0 && all_before(seen, now as int) ==> {
                &&& fit.len() == n + 1
                &&& fit.take(n).to_multiset() == seen.to_multiset()
                &&& fit[n] == (now as int, fit[n - 1].1)
            }
            &&& !renders(live, k) && !all_before(seen, now as int) ==> fit.to_multiset()
                == seen.to_multiset()
            &&& !renders(live, k) && n == 0 ==> fit.len() == 0
        }),
{
    broadcast use vstd::seq_lib::group_to_multiset_ensures;

    lemma_near(hist, k, now as int / 1_000_000);
    lemma_bills(hist, hist, k, window, now as int);
    lemma_bill_readings(hist, k, window, now as int);
    let p = points_of(run_events(hist, hist, window, now as int), k);
    let samples = in_micros(p);
    let seen = bills_seen(hist, k, window, now as int);
    let fit = readings(session_fit(hist, live, window, now, k));
    let n = seen.len() as int;
    if renders(live, k) {
        let x: Reading = (now as i128, live->0.usd);
        lemma_sorted_readings(samples);
        lemma_sorted_readings(samples.push(x));
        assert(readings(samples.push(x)) =~= seen.push((now as int, live->0.usd as int)));
    } else {
        assert(live_key(live) != Some(k));
        lemma_sorted_readings(samples);
        sorting_orders_and_keeps(samples);
        let sorted = by_moment(samples);
        let at = readings(sorted);
        assert(session_fit(hist, live, window, now, k) == fitted(p, false, None, now as i128));
        if n > 0 && sorted.last().0 < now {
            let last = sorted.last();
            assert(fit =~= at.push((now as int, last.1 as int)));
            assert(fit.take(n) =~= at);
            assert forall|i: int, j: int| 0 <= i <= j < fit.len() implies (#[trigger] fit[i]).0 <= (
            #[trigger] fit[j]).0 by {
                if i < n {
                    assert(fit[i] == at[i] && at[i].0 <= at[n - 1].0);
                }
                if j < n {
                    assert(fit[j] == at[j]);
                }
            }
            assert forall|i: int| 0 <= i < n implies (#[trigger] seen[i]).0 < now by {
                assert(seen.to_multiset().count(seen[i]) > 0);
                assert(at.contains(seen[i]));
                let j = at.index_of(seen[i]);
                assert(at[j].0 <= at[n - 1].0);
            }
            assert(all_before(seen, now as int));
        } else {
            assert(fit == at);
            if n > 0 {
                assert(at.to_multiset().count(at[n - 1]) > 0);
                assert(seen.contains(at[n - 1]));
                let i = seen.index_of(at[n - 1]);
                assert(seen[i].0 >= now);
            }
        }
    }
}

/// Whether a counter never falls over time, and is one at each moment.
pub open spec fn never_falls(p: Seq<(int, int)>) -> bool {
    forall|i: int, j: int|
        0 <= i < p.len() && 0 <= j < p.len() && (#[trigger] p[i]).0 <= (#[trigger] p[j]).0
            ==> p[i].1 <= p[j].1
}

proof fn lemma_same_members(a: Seq<(int, int)>, b: Seq<(int, int)>)
    requires
        a.to_multiset() == b.to_multiset(),
    ensures
        a.len() == b.len(),
        forall|i: int| 0 <= i < a.len() ==> b.contains(#[trigger] a[i]),
        forall|i: int| 0 <= i < b.len() ==> a.contains(#[trigger] b[i]),
{
    broadcast use vstd::seq_lib::group_to_multiset_ensures;

    assert(a.to_multiset().len() == a.len() && b.to_multiset().len() == b.len());
    assert forall|i: int| 0 <= i < a.len() implies b.contains(#[trigger] a[i]) by {
        assert(a.to_multiset().count(a[i]) > 0);
    }
    assert forall|i: int| 0 <= i < b.len() implies a.contains(#[trigger] b[i]) by {
        assert(b.to_multiset().count(b[i]) > 0);
    }
}

/// Where the counter of a session that is not rendering never falls, neither do the readings that
/// its burn is fitted over: the last of them shows the highest counter seen, and no less than one
/// minute of them gives a burn, which is not negative. Where the counter rose, so does the line
/// through the readings.
pub proof fn a_counter_that_never_falls_is_fitted_so(
    hist: Seq<Sample>,
    live: Option<LiveCounter>,
    window: int,
    now: i64,
    k: Seq<char>,
)
    requires
        now >= 0,
        !renders(live, k),
        never_falls(bills_seen(hist, k, window, now as int)),
        all_before(bills_seen(hist, k, window, now as int), now as int),
        bills_seen(hist, k, window, now as int).len() > 0,
    ensures
        ({
            let seen = bills_seen(hist, k, window, now as int);
            let fit = readings(session_fit(hist, live, window, now, k));
            let rate = fit_rate(session_fit(hist, live, window, now, k));
            &&& never_sinks(fit)
            &&& fit.last().0 == now
            &&& forall|i: int| 0 <= i < seen.len() ==> (#[trigger] seen[i]).1 <= fit.last().1
            &&& exists|i: int| 0 <= i < seen.len() && (#[trigger] seen[i]).1 == fit.last().1
            &&& rate is Some <==> exists|i: int|
                0 <= i < seen.len() && now - (#[trigger] seen[i]).0 >= 60_000_000
            &&& rate is Some ==> rate == slope(fit) && rate->0 >= 0
            &&& (exists|i: int, j: int|
                0 <= i < seen.len() && 0 <= j < seen.len() && (#[trigger] seen[i]).0 < (
                #[trigger] seen[j]).0 && seen[i].1 < seen[j].1) ==> pairs_together(fit) > 0
            &&& rate is Some && 2 * (pairs_together(fit) * 3_600_000_000) >= pairs_apart(fit)
                ==> rate->0 > 0
        }),
{
    a_burn_is_fitted_over_the_bills(hist, live, window, now, k);
    let seen = bills_seen(hist, k, window, now as int);
    let raw = session_fit(hist, live, window, now, k);
    let fit = readings(raw);
    let n = seen.len() as int;
    let at = fit.take(n);
    lemma_same_members(at, seen);
    assert forall|i: int| 0 <= i < n implies (#[trigger] seen[i]).1 <= fit[n].1 by {
        assert(at.contains(seen[i]));
        let a = at.index_of(seen[i]);
        assert(at[a] == fit[a] && at[n - 1] == fit[n - 1]);
        assert(fit[a].0 <= fit[n - 1].0);
        assert(seen.contains(at[n - 1]));
        let j = seen.index_of(at[n - 1]);
        assert(seen[i].0 <= seen[j].0);
    }
    assert(seen.contains(at[n - 1]));
    let top = seen.index_of(at[n - 1]);
    assert(seen[top].1 == fit[n].1);
    assert forall|i: int, j: int|
        0 <= i < fit.len() && 0 <= j < fit.len() && (#[trigger] fit[i]).0 < (
        #[trigger] fit[j]).0 implies fit[i].1 <= fit[j].1 by {
        assert(i < n) by {
            assert(fit[j].0 <= fit[n].0);
        }
        assert(at[i] == fit[i] && seen.contains(at[i]));
        let a = seen.index_of(at[i]);
        if j < n {
            assert(at[j] == fit[j] && seen.contains(at[j]));
            let b = seen.index_of(at[j]);
            assert(seen[a].1 <= seen[b].1);
        } else {
            assert(seen[a].1 <= fit[n].1);
        }
    }
    what_never_sinks_has_no_negative_slope(fit);
    the_slope_is_least_squares(fit);
    slope_needs_two_moments(fit);
    assert(fit[0].0 == raw[0].0 && fit[n].0 == raw[n].0);
    assert(fit_span(raw) == now - fit[0].0);
    assert(at[0] == fit[0] && seen.contains(at[0]));
    let low = seen.index_of(at[0]);
    assert forall|i: int| 0 <= i < n implies fit[0].0 <= (#[trigger] seen[i]).0 by {
        assert(at.contains(seen[i]));
        let a = at.index_of(seen[i]);
        assert(fit[0].0 <= fit[a].0);
    }
    assert(seen[low].0 == fit[0].0);
    if now - fit[0].0 >= 60_000_000 {
        assert(fit[0].0 != fit[n].0);
    }
    if exists|i: int, j: int|
        0 <= i < seen.len() && 0 <= j < seen.len() && (#[trigger] seen[i]).0 < (
        #[trigger] seen[j]).0 && seen[i].1 < seen[j].1 {
        let (i, j) = choose|i: int, j: int|
            0 <= i < seen.len() && 0 <= j < seen.len() && (#[trigger] seen[i]).0 < (
            #[trigger] seen[j]).0 && seen[i].1 < seen[j].1;
        assert(at.contains(seen[i]) && at.contains(seen[j]));
        let (a, b) = (at.index_of(seen[i]), at.index_of(seen[j]));
        assert(fit[a].0 < fit[b].0 && fit[a].1 < fit[b].1);
    }
    let (t, d) = (pairs_together(fit) * 3_600_000_000, pairs_apart(fit));
    if d > 0 && 2 * t >= d {
        assert((2 * t + d) / (2 * d) >= 1) by (nonlinear_arith)
            requires
                d > 0,
                2 * t >= d,
        ;
    }
}

// ---------------------------------------------------------------------------------------
// One session
// ---------------------------------------------------------------------------------------

/// Whether no other session than `k` has a sample.
pub open spec fn only_session(hist: Seq<Sample>, k: Seq<char>) -> bool {
    forall|i: int|
        0 <= i < hist.len() ==> sample_key(#[trigger] hist[i]) is None || sample_key(hist[i])
            == Some(k)
}

proof fn lemma_only_key(events: Seq<Event>, k: Seq<char>)
    requires
        forall|i: int| 0 <= i < events.len() ==> (#[trigger] events[i]).0 == k,
    ensures
        events.len() == 0 ==> keys_in(events) == Seq::<Seq<char>>::empty(),
        events.len() > 0 ==> keys_in(events) == seq![k],
        points_of(events, k).len() == events.len(),
    decreases events.len(),
{
    if events.len() > 0 {
        let head = events.drop_last();
        assert forall|i: int| 0 <= i < head.len() implies (#[trigger] head[i]).0 == k by {
            assert(head[i] == events[i]);
        }
        lemma_only_key(head, k);
        assert(events.last() == events[events.len() - 1]);
        if head.len() > 0 {
            assert(seq![k][0] == k);
            assert(keys_in(head).contains(k));
        } else {
            assert(keys_in(events) =~= seq![k]);
        }
    }
}

proof fn lemma_run_is_of(hist: Seq<Sample>, part: Seq<Sample>, k: Seq<char>, window: int, now: int)
    requires
        only_session(part, k),
    ensures
        forall|i: int|
            0 <= i < run_events(hist, part, window, now).len() ==> (#[trigger] run_events(
                hist,
                part,
                window,
                now,
            )[i]).0 == k,
    decreases part.len(),
{
    if part.len() > 0 {
        let head = part.drop_last();
        assert forall|i: int| 0 <= i < head.len() implies sample_key(#[trigger] head[i]) is None
            || sample_key(head[i]) == Some(k) by {
            assert(head[i] == part[i]);
        }
        lemma_run_is_of(hist, head, k, window, now);
        let s = part[part.len() - 1];
        let before = run_events(hist, head, window, now);
        let events = run_events(hist, part, window, now);
        assert forall|i: int| 0 <= i < events.len() implies (#[trigger] events[i]).0 == k by {
            if i < before.len() {
                assert(events[i] == before[i]);
            }
        }
    }
}

/// The burn of a lone session is the slope of the readings that it is fitted over, and none below
/// zero. It takes a minute of readings to be shown, and a quarter of an hour to be warned from.
pub proof fn a_lone_session_burns_at_its_slope(
    hist: Seq<Sample>,
    live: Option<LiveCounter>,
    window: int,
    now: i64,
    k: Seq<char>,
)
    requires
        now >= 0,
        only_session(hist, k),
    ensures
        ({
            let seen = bills_seen(hist, k, window, now as int);
            let fit = readings(session_fit(hist, live, window, now, k));
            let base = fit.last().0 - fit[0].0;
            let rate = slope(fit)->0;
            let shown: int = if rate > 0 {
                rate
            } else {
                0
            };
            &&& seen.len() == 0 || base < 60_000_000 ==> day_rate_of(hist, live, window, now)
                is None
            &&& seen.len() > 0 && 60_000_000 <= base < 900_000_000 ==> day_rate_of(
                hist,
                live,
                window,
                now,
            ) == Some((shown, 0int))
            &&& seen.len() > 0 && base >= 900_000_000 ==> day_rate_of(hist, live, window, now)
                == Some((shown, shown))
        }),
{
    broadcast use vstd::seq_lib::group_to_multiset_ensures;

    let events = run_events(hist, hist, window, now as int);
    let seen = bills_seen(hist, k, window, now as int);
    lemma_run_is_of(hist, hist, k, window, now as int);
    lemma_only_key(events, k);
    lemma_bills(hist, hist, k, window, now as int);
    a_burn_is_fitted_over_the_bills(hist, live, window, now, k);
    let raw = session_fit(hist, live, window, now, k);
    let fit = readings(raw);
    assert(seen.len() == events.len());
    if seen.len() > 0 {
        assert(fit.len() >= seen.len()) by {
            assert(fit.to_multiset().len() == fit.len() && seen.to_multiset().len() == seen.len());
        }
        assert(fit_span(raw) == fit.last().0 - fit[0].0);
        slope_needs_two_moments(fit);
        if fit.last().0 - fit[0].0 >= 60_000_000 {
            assert(fit[0].0 != fit[fit.len() - 1].0);
        }
        assert(rates(hist, live, window, now, 0) == (0int, 0int, 0nat));
        assert(keys_in(events)[0] == k);
        reveal_with_fuel(rates, 2);
    }
}

/// Whether a sample shows a counter of the session `k`, on one side of midnight.
pub open spec fn bills_on(hist: Seq<Sample>, k: Seq<char>, midnight: int, today: bool) -> spec_fn(
    Sample,
) -> bool {
    |s: Sample|
        s.api && s.usd is Some && sample_key(s) == Some(k) && (s.t >= midnight) == today
            && !subscribed_around(hist, k, s.t as int)
}

proof fn lemma_bills_on(
    hist: Seq<Sample>,
    part: Seq<Sample>,
    k: Seq<char>,
    midnight: int,
    today: bool,
)
    ensures
        points_of(spend_events(hist, part, midnight, today), k) == part.filter(
            bills_on(hist, k, midnight, today),
        ).map_values(billed_at()),
        only_session(part, k) ==> forall|i: int|
            0 <= i < spend_events(hist, part, midnight, today).len() ==> (#[trigger] spend_events(
                hist,
                part,
                midnight,
                today,
            )[i]).0 == k,
    decreases part.len(),
{
    reveal(Seq::filter);
    let pred = bills_on(hist, k, midnight, today);
    let events = spend_events(hist, part, midnight, today);
    if part.len() > 0 {
        let head = part.drop_last();
        let s = part.last();
        lemma_bills_on(hist, head, k, midnight, today);
        let before = spend_events(hist, head, midnight, today);
        let listed = head.filter(pred);
        a_counter_around_a_subscription_is_no_money(hist, s);
        let counts = attributable(hist, s) && (s.t >= midnight) == today;
        if sample_key(s) == Some(k) {
            assert(counts == pred(s));
        }
        if counts {
            assert(events.drop_last() =~= before);
        }
        if pred(s) {
            assert(part.filter(pred) == listed.push(s));
            assert(listed.push(s).map_values(billed_at()) =~= listed.map_values(billed_at()).push(
                (s.t, s.usd->0),
            ));
        }
        if only_session(part, k) {
            assert forall|i: int| 0 <= i < head.len() implies sample_key(#[trigger] head[i]) is None
                || sample_key(head[i]) == Some(k) by {
                assert(head[i] == part[i]);
            }
            assert(s == part[part.len() - 1]);
            assert forall|i: int| 0 <= i < events.len() implies (#[trigger] events[i]).0 == k by {
                if i < before.len() {
                    assert(events[i] == before[i]);
                }
            }
        }
    } else {
        assert(points_of(events, k) =~= part.filter(pred).map_values(billed_at()));
    }
}

/// Whether a sample shows a counter of the session `k` that is money.
pub open spec fn billed(s: Sample, k: Seq<char>) -> bool {
    s.api && s.usd is Some && sample_key(s) == Some(k)
}

/// Whether the session `k` showed the counter `v` before midnight.
pub open spec fn shown_before(hist: Seq<Sample>, k: Seq<char>, midnight: int, v: int) -> bool {
    exists|i: int|
        0 <= i < hist.len() && billed(#[trigger] hist[i], k) && hist[i].t < midnight && hist[i].usd->0
            == v
}

/// Whether the session `k` showed the counter `v` since midnight, or shows it now.
pub open spec fn shown_today(
    hist: Seq<Sample>,
    live: Option<LiveCounter>,
    k: Seq<char>,
    midnight: int,
    v: int,
) -> bool {
    (renders(live, k) && live->0.usd == v) || exists|i: int|
        0 <= i < hist.len() && billed(#[trigger] hist[i], k) && hist[i].t >= midnight
            && hist[i].usd->0 == v
}

/// Whether the counter of the session `k` never falls over time, up to where it stands now.
pub open spec fn only_climbs(
    hist: Seq<Sample>,
    live: Option<LiveCounter>,
    k: Seq<char>,
    now: int,
) -> bool {
    &&& forall|i: int, j: int|
        0 <= i < hist.len() && 0 <= j < hist.len() && billed(#[trigger] hist[i], k) && billed(
            #[trigger] hist[j],
            k,
        ) && hist[i].t <= hist[j].t ==> hist[i].usd->0 <= hist[j].usd->0
    &&& renders(live, k) ==> forall|i: int|
        0 <= i < hist.len() && billed(#[trigger] hist[i], k) ==> hist[i].t <= now / 1_000_000
            && hist[i].usd->0 <= live->0.usd && (hist[i].t == now / 1_000_000 ==> hist[i].usd->0
            == live->0.usd)
}

proof fn lemma_picked(
    hist: Seq<Sample>,
    k: Seq<char>,
    midnight: int,
    today: bool,
    p: Point,
)
    requires
        forall|t: int| !subscribed_around(hist, k, t),
    ensures
        hist.filter(bills_on(hist, k, midnight, today)).map_values(billed_at()).contains(p)
            <==> exists|i: int|
            0 <= i < hist.len() && billed(#[trigger] hist[i], k) && (hist[i].t >= midnight) == today
                && p == (hist[i].t, hist[i].usd->0),
{
    broadcast use vstd::seq_lib::group_filter_ensures;

    let pred = bills_on(hist, k, midnight, today);
    let picked = hist.filter(pred);
    let points = picked.map_values(billed_at());
    if points.contains(p) {
        let n = points.index_of(p);
        assert(picked.contains(picked[n]));
        hist.lemma_filter_contains_rev(pred, picked[n]);
        assert(hist.contains(picked[n]) && pred(picked[n]));
        let i = hist.index_of(picked[n]);
        assert(billed(hist[i], k));
    }
    if exists|i: int|
        0 <= i < hist.len() && billed(#[trigger] hist[i], k) && (hist[i].t >= midnight) == today
            && p == (hist[i].t, hist[i].usd->0) {
        let i = choose|i: int|
            0 <= i < hist.len() && billed(#[trigger] hist[i], k) && (hist[i].t >= midnight) == today
                && p == (hist[i].t, hist[i].usd->0);
        assert(pred(hist[i]));
        assert(picked.contains(hist[i]));
        assert(points[picked.index_of(hist[i])] == p);
    }
}

proof fn lemma_one_charge(windows: Seq<Point>, pre: Seq<Point>, obs: Seq<Point>, hi: int, lo: int)
    requires
        windows.len() == 0,
        obs.len() > 0,
        exists|q: Point| #[trigger] obs.contains(q) && q.1 == hi,
        forall|q: Point| #[trigger] obs.contains(q) ==> lo <= q.1 <= hi,
        pre.len() > 0 ==> (exists|q: Point| #[trigger] pre.contains(q) && q.1 == lo) && (forall|
            q: Point,
        | #[trigger]
            pre.contains(q) ==> q.1 <= lo),
        pre.len() == 0 ==> exists|q: Point| #[trigger] obs.contains(q) && q.1 == lo,
        forall|a: Point, b: Point|
            #![trigger obs.contains(a), obs.contains(b)]
            obs.contains(a) && obs.contains(b) && a.0 <= b.0 ==> a.1 <= b.1,
    ensures
        charge(windows, pre, obs) == hi - lo,
{
    broadcast use vstd::seq_lib::group_to_multiset_ensures;

    let listed = in_secs(obs);
    let p = by_moment(listed);
    sorting_orders_and_keeps(listed);
    assert(forall|a: int, b: int| !window_between(windows, a, b));
    assert forall|i: int| 0 <= i < p.len() implies obs.contains(
        ((#[trigger] p[i]).0 as i64, p[i].1),
    ) && i64::MIN <= p[i].0 <= i64::MAX by {
        assert(p.to_multiset().count(p[i]) > 0);
        assert(listed.contains(p[i]));
        let j = listed.index_of(p[i]);
        assert(obs[j] == (p[i].0 as i64, p[i].1));
    }
    assert forall|q: Point| #[trigger] obs.contains(q) implies exists|i: int|
        0 <= i < p.len() && #[trigger] p[i] == (q.0 as i128, q.1) by {
        let j = obs.index_of(q);
        assert(listed[j] == (q.0 as i128, q.1));
        assert(listed.to_multiset().count(listed[j]) > 0);
        assert(p.contains(listed[j]));
        assert(p[p.index_of(listed[j])] == (q.0 as i128, q.1));
    }
    let first: Point = (p[0].0 as i64, p[0].1);
    assert(obs.contains(first));
    if pre.len() > 0 {
        lemma_highest(pre);
        let q = choose|q: Point| #[trigger] pre.contains(q) && q.1 == lo;
        assert(!better(q, highest(pre)));
        assert(highest(pre).1 == lo);
    } else {
        let q = choose|q: Point| #[trigger] obs.contains(q) && q.1 == lo;
        let i = choose|i: int| 0 <= i < p.len() && #[trigger] p[i] == (q.0 as i128, q.1);
        assert(p[0].0 <= p[i].0);
        assert(first.0 <= q.0);
    }
    let base = baseline(windows, pre, p[0]);
    assert(base == lo);
    an_unbroken_run_is_charged_in_full(p, base, p.len(), windows);
    let t = tally(windows, p, base, p.len());
    let q = choose|q: Point| #[trigger] obs.contains(q) && q.1 == hi;
    let i = choose|i: int| 0 <= i < p.len() && #[trigger] p[i] == (q.0 as i128, q.1);
    assert(p[i].1 <= t.top);
    let j = choose|j: int| 0 <= j < p.len() && (#[trigger] p[j]).1 == t.top;
    assert(obs.contains((p[j].0 as i64, p[j].1)));
}

/// A lone session that was never under a subscription, and whose counter only climbs, spent today
/// what its counter climbed: from where it stood last before midnight, or, where it was not seen
/// then, from where it was first seen, to the highest seen since.
pub proof fn a_lone_session_spends_its_climb(
    hist: Seq<Sample>,
    live: Option<LiveCounter>,
    midnight: int,
    now: i64,
    k: Seq<char>,
    hi: int,
    lo: int,
)
    requires
        now >= 0,
        only_session(hist, k),
        live is None || renders(live, k),
        forall|i: int| 0 <= i < hist.len() ==> !on_subscription(#[trigger] hist[i]),
        only_climbs(hist, live, k, now as int),
        shown_today(hist, live, k, midnight, hi),
        forall|v: int| #[trigger] shown_today(hist, live, k, midnight, v) ==> v <= hi,
        (exists|v: int| #[trigger] shown_before(hist, k, midnight, v)) ==> shown_before(
            hist,
            k,
            midnight,
            lo,
        ) && forall|v: int| #[trigger] shown_before(hist, k, midnight, v) ==> v <= lo,
        (forall|v: int| !#[trigger] shown_before(hist, k, midnight, v)) ==> shown_today(
            hist,
            live,
            k,
            midnight,
            lo,
        ) && forall|v: int| #[trigger] shown_today(hist, live, k, midnight, v) ==> v >= lo,
        now as int / 1_000_000 >= midnight,
    ensures
        day_total(hist, midnight, live, now as int) == hi - lo,
        keys_in(today_events(hist, midnight, live, now as int)) == seq![k],
{
    assert forall|t: int| !subscribed_around(hist, k, t) by {}
    let secs = now as int / 1_000_000;
    let windows = windows_in(hist, k);
    lemma_window_at(hist, k);
    if windows.len() > 0 {
        let j = choose|j: int|
            0 <= j < hist.len() && shows_windows(#[trigger] hist[j], k) && hist[j].t == windows[0].0;
        assert(subscribed_at(hist, k, windows[0].0));
    }
    lemma_bills_on(hist, hist, k, midnight, true);
    lemma_bills_on(hist, hist, k, midnight, false);
    lemma_near(hist, k, secs);
    let logged = spend_events(hist, hist, midnight, true);
    let before = spend_events(hist, hist, midnight, false);
    let today = today_events(hist, midnight, live, now as int);
    let pre = points_of(before, k);
    let obs = points_of(today, k);
    let here: Point = (secs as i64, live->0.usd);
    if renders(live, k) {
        assert(whole_secs(now as int) == secs);
        assert(today == logged.push((k, here)));
        assert(today.drop_last() =~= logged);
    } else {
        assert(today == logged);
    }
    assert forall|i: int| 0 <= i < today.len() implies (#[trigger] today[i]).0 == k by {
        if i < logged.len() {
            assert(today[i] == logged[i]);
        }
    }
    lemma_only_key(today, k);
    let picked = points_of(logged, k);
    assert forall|q: Point| #[trigger] obs.contains(q) <==> picked.contains(q) || (renders(live, k)
        && q == here) by {
        lemma_push_contains(picked, here, q);
    }
    assert forall|q: Point| #[trigger] obs.contains(q) implies shown_today(
        hist,
        live,
        k,
        midnight,
        q.1 as int,
    ) by {
        lemma_picked(hist, k, midnight, true, q);
    }
    assert forall|v: int| #[trigger] shown_today(hist, live, k, midnight, v) implies exists|q: Point| #[trigger]
        obs.contains(q) && q.1 == v by {
        if renders(live, k) && live->0.usd == v {
            assert(obs.contains(here));
        } else {
            let i = choose|i: int|
                0 <= i < hist.len() && billed(#[trigger] hist[i], k) && hist[i].t >= midnight
                    && hist[i].usd->0 == v;
            let q: Point = (hist[i].t, hist[i].usd->0);
            assert(billed(hist[i], k));
            lemma_picked(hist, k, midnight, true, q);
            assert(obs.contains(q));
        }
    }
    assert forall|q: Point| #[trigger] pre.contains(q) implies shown_before(
        hist,
        k,
        midnight,
        q.1 as int,
    ) by {
        lemma_picked(hist, k, midnight, false, q);
    }
    assert forall|v: int| #[trigger] shown_before(hist, k, midnight, v) implies exists|q: Point| #[trigger]
        pre.contains(q) && q.1 == v by {
        let i = choose|i: int|
            0 <= i < hist.len() && billed(#[trigger] hist[i], k) && hist[i].t < midnight
                && hist[i].usd->0 == v;
        let q: Point = (hist[i].t, hist[i].usd->0);
        assert(billed(hist[i], k));
        lemma_picked(hist, k, midnight, false, q);
        assert(pre.contains(q));
    }
    assert forall|a: Point, b: Point|
        #![trigger obs.contains(a), obs.contains(b)]
        obs.contains(a) && obs.contains(b) && a.0 <= b.0 implies a.1 <= b.1 by {
        lemma_picked(hist, k, midnight, true, a);
        lemma_picked(hist, k, midnight, true, b);
    }
    if pre.len() > 0 {
        assert(pre.contains(pre[0]));
        assert(shown_before(hist, k, midnight, pre[0].1 as int));
        assert(shown_before(hist, k, midnight, lo));
        let low = choose|i: int|
            0 <= i < hist.len() && billed(#[trigger] hist[i], k) && hist[i].t < midnight
                && hist[i].usd->0 == lo;
        assert forall|q: Point| #[trigger] obs.contains(q) implies lo <= q.1 by {
            lemma_picked(hist, k, midnight, true, q);
            assert(billed(hist[low], k));
        }
    } else {
        assert forall|v: int| !#[trigger] shown_before(hist, k, midnight, v) by {
            if shown_before(hist, k, midnight, v) {
                let q = choose|q: Point| #[trigger] pre.contains(q) && q.1 == v;
                assert(pre.contains(q));
            }
        }
        assert(shown_today(hist, live, k, midnight, lo));
        assert forall|q: Point| #[trigger] obs.contains(q) implies lo <= q.1 by {
            assert(shown_today(hist, live, k, midnight, q.1 as int));
        }
    }
    assert forall|q: Point| #[trigger] obs.contains(q) implies q.1 <= hi by {
        assert(shown_today(hist, live, k, midnight, q.1 as int));
    }
    lemma_one_charge(windows, pre, obs, hi, lo);
    assert(keys_in(today)[0] == k);
    assert(charges(hist, before, today, 0) == 0);
    reveal_with_fuel(charges, 2);
}

// ---------------------------------------------------------------------------------------
// Across a subscription
// ---------------------------------------------------------------------------------------

proof fn lemma_insert_behind(a: Seq<Reading>, b: Seq<Reading>, x: Reading)
    requires
        a.len() > 0 ==> a.last().0 <= x.0,
    ensures
        insert_by_moment(a + b, x) == a + insert_by_moment(b, x),
    decreases b.len(),
{
    if b.len() > 0 {
        assert((a + b).drop_last() =~= a + b.drop_last());
        assert((a + b).last() == b.last());
        lemma_insert_behind(a, b.drop_last(), x);
        assert(insert_by_moment(a + b, x) =~= a + insert_by_moment(b, x));
    } else {
        assert(a + b =~= a);
        assert(insert_by_moment(a + b, x) =~= a + insert_by_moment(b, x));
    }
}

proof fn lemma_sorted_apart(a: Seq<Reading>, b: Seq<Reading>, t: int)
    requires
        forall|i: int| 0 <= i < a.len() ==> (#[trigger] a[i]).0 < t,
        forall|i: int| 0 <= i < b.len() ==> (#[trigger] b[i]).0 > t,
    ensures
        by_moment(a + b) == by_moment(a) + by_moment(b),
        forall|i: int| 0 <= i < by_moment(a).len() ==> (#[trigger] by_moment(a)[i]).0 < t,
        forall|i: int| 0 <= i < by_moment(b).len() ==> (#[trigger] by_moment(b)[i]).0 > t,
        by_moment(a).len() == a.len(),
        by_moment(b).len() == b.len(),
    decreases b.len(),
{
    broadcast use vstd::seq_lib::group_to_multiset_ensures;

    sorting_orders_and_keeps(a);
    sorting_orders_and_keeps(b);
    assert forall|i: int| 0 <= i < by_moment(a).len() implies (#[trigger] by_moment(a)[i]).0 < t by {
        assert(by_moment(a).to_multiset().count(by_moment(a)[i]) > 0);
        assert(a.contains(by_moment(a)[i]));
    }
    assert forall|i: int| 0 <= i < by_moment(b).len() implies (#[trigger] by_moment(b)[i]).0 > t by {
        assert(by_moment(b).to_multiset().count(by_moment(b)[i]) > 0);
        assert(b.contains(by_moment(b)[i]));
    }
    if b.len() > 0 {
        let head = b.drop_last();
        assert forall|i: int| 0 <= i < head.len() implies (#[trigger] head[i]).0 > t by {
            assert(head[i] == b[i]);
        }
        lemma_sorted_apart(a, head, t);
        assert((a + b).drop_last() =~= a + head);
        assert((a + b).last() == b.last());
        assert(b.last() == b[b.len() - 1]);
        lemma_insert_behind(by_moment(a), by_moment(head), b.last());
    } else {
        assert(a + b =~= a);
        assert(by_moment(a) + by_moment(b) =~= by_moment(a));
    }
}

proof fn lemma_tally_apart(
    windows: Seq<Point>,
    a: Seq<Reading>,
    b: Seq<Reading>,
    base: int,
    n: nat,
)
    requires
        a.len() > 0,
        b.len() > 0,
        1 <= n <= a.len() + b.len(),
        window_between(windows, a.last().0 as int, b[0].0 as int),
    ensures
        n <= a.len() ==> tally(windows, a + b, base, n) == tally(windows, a, base, n),
        n > a.len() ==> ({
            let all = tally(windows, a + b, base, n);
            let first = tally(windows, a, base, a.len());
            let then = tally(windows, b, b[0].1 as int, (n - a.len()) as nat);
            &&& all.closed == first.closed + movement(first) + then.closed
            &&& all.base == then.base
            &&& all.top == then.top
        }),
    decreases n,
{
    let p = a + b;
    if n > 1 {
        lemma_tally_apart(windows, a, b, base, (n - 1) as nat);
        if n > a.len() {
            assert(p[n - 1] == b[n - 1 - a.len()]);
            if n - 1 > a.len() {
                assert(p[n - 2] == b[n - 2 - a.len()]);
            } else {
                assert(p[n - 2] == a.last());
            }
        } else {
            assert(p[n - 1] == a[n - 1] && p[n - 2] == a[n - 2]);
        }
    } else {
        assert(p[0] == a[0]);
    }
}

/// What a counter climbed while its session was under a subscription is not charged: a session seen on
/// both sides of a subscription phase is charged for the one, and for the other as if it had only then
/// been seen first.
pub proof fn a_subscription_phase_is_not_charged(
    windows: Seq<Point>,
    pre: Seq<Point>,
    a: Seq<Point>,
    b: Seq<Point>,
    w: Point,
)
    requires
        windows.contains(w),
        a.len() > 0,
        b.len() > 0,
        forall|i: int| 0 <= i < a.len() ==> (#[trigger] a[i]).0 < w.0,
        forall|i: int| 0 <= i < b.len() ==> (#[trigger] b[i]).0 > w.0,
    ensures
        charge(windows, pre, a + b) == charge(windows, pre, a) + charge(windows, Seq::empty(), b),
{
    let (sa, sb) = (in_secs(a), in_secs(b));
    assert(in_secs(a + b) =~= sa + sb);
    lemma_sorted_apart(sa, sb, w.0 as int);
    let (pa, pb) = (by_moment(sa), by_moment(sb));
    let p = pa + pb;
    assert(p[0] == pa[0]);
    assert(windows[windows.index_of(w)] == w);
    assert(pa[pa.len() - 1].0 < w.0 < pb[0].0);
    assert(window_between(windows, pa.last().0 as int, pb[0].0 as int));
    let base = baseline(windows, pre, p[0]);
    lemma_tally_apart(windows, pa, pb, base, p.len());
}

/// What a session showed before midnight does not count where its counter is seen lower today, nor
/// where the session was under a subscription in between: its day then starts where it is first seen.
pub proof fn a_day_starts_over_from_a_lower_counter(
    windows: Seq<Point>,
    pre: Seq<Point>,
    obs: Seq<Point>,
    w: Point,
)
    requires
        obs.len() > 0,
        (forall|i: int, j: int|
            0 <= i < pre.len() && 0 <= j < obs.len() ==> (#[trigger] pre[i]).1 >= (
            #[trigger] obs[j]).1) || (windows.contains(w) && (forall|i: int|
            0 <= i < pre.len() ==> (#[trigger] pre[i]).0 < w.0) && (forall|j: int|
            0 <= j < obs.len() ==> (#[trigger] obs[j]).0 > w.0)),
    ensures
        charge(windows, pre, obs) == charge(windows, Seq::empty(), obs),
{
    broadcast use vstd::seq_lib::group_to_multiset_ensures;

    let listed = in_secs(obs);
    let p = by_moment(listed);
    sorting_orders_and_keeps(listed);
    assert(p.to_multiset().count(p[0]) > 0);
    assert(listed.contains(p[0]));
    let j = listed.index_of(p[0]);
    assert(p[0] == (obs[j].0 as i128, obs[j].1));
    if pre.len() > 0 {
        lemma_highest(pre);
        let i = pre.index_of(highest(pre));
        assert(pre[i] == highest(pre));
        if pre[i].1 < obs[j].1 {
            assert(windows[windows.index_of(w)] == w);
            assert(window_between(windows, highest(pre).0 as int, p[0].0 as int));
        }
    }
}

} // verus!
