//! Laws of the log over whole histories: when a payload is logged, what its sample records, and
//! which samples a prune keeps.

use vstd::prelude::*;

use crate::history::{
    cost_events, costs_in, last_time, later_than, lemma_is_last_time, lemma_last_time,
    lemma_later_contains, lemma_session_points, on_subscription, quiet_of, quiet_sessions,
    quiet_sessions_are_ranked_by_recency, quiet_upto, ranked, reserve, sample_key, shows_counter,
    shows_windows, the_most_recent_quiet_sessions_are_reserved, window_events, windows_in, Quiet,
    Sample,
};
use crate::json::{child, mode_of, nested_tree, Mode, Tree};
use crate::log::{
    aged, anchors_in, changes_shape, describes, drop_oldest, entry_cap, genuine_api, has_api, is_due,
    is_held, is_reserved, keep_recent, lemma_drop_oldest, lemma_keep_recent, payload_key,
    repeats_counter, retained, retention_spares_reserved_samples,
};
use crate::num::{amount_of, clamp_i64, integer_of, number_of, Num};
use crate::series::{
    keys_in, lemma_keys_have_points, lemma_push_contains, points_of, Event, Point,
};
use crate::spending::{lemma_near, subscribed_around};

verus! {

// ---------------------------------------------------------------------------------------
// What a prune keeps
// ---------------------------------------------------------------------------------------

/// Whether the history holds a flagged sample of a session that reported no windows.
pub open spec fn holds_plain_api_spend(hist: Seq<Sample>) -> bool {
    exists|i: int|
        0 <= i < hist.len() && (#[trigger] hist[i]).api && forall|j: int|
            0 <= j < hist.len() && sample_key(#[trigger] hist[j]) == sample_key(hist[i])
                ==> !on_subscription(hist[j])
}

proof fn lemma_plain_api(hist: Seq<Sample>)
    requires
        holds_plain_api_spend(hist),
    ensures
        has_api(hist),
{
    let i = choose|i: int|
        0 <= i < hist.len() && (#[trigger] hist[i]).api && forall|j: int|
            0 <= j < hist.len() && sample_key(#[trigger] hist[j]) == sample_key(hist[i])
                ==> !on_subscription(hist[j]);
    if sample_key(hist[i]) is Some {
        let k = sample_key(hist[i])->0;
        let ws = windows_in(hist, k);
        if ws.len() > 0 {
            assert(ws.contains(ws[0]));
            lemma_session_points(hist, k, ws[0]);
            let s = choose|s: Sample| #[trigger]
                hist.contains(s) && sample_key(s) == Some(k) && on_subscription(s) && s.t
                    == ws[0].0;
            let j = hist.index_of(s);
            assert(sample_key(hist[j]) == sample_key(hist[i]));
        }
    }
}

proof fn lemma_kept(hist: Seq<Sample>, now: int, s: Sample)
    requires
        hist.len() <= entry_cap(hist),
        hist.contains(s),
        s.t > clamp_i64(now - 93_600),
    ensures
        retained(hist, now).contains(s),
{
    lemma_keep_recent(hist, clamp_i64(now - 93_600), anchors_in(hist), s);
}

/// Within the cap nothing is lost that is younger than 26 hours: of 250 samples in any history,
/// and of 1500 where API-key spend is among them.
pub proof fn a_young_sample_is_kept_within_the_cap(hist: Seq<Sample>, now: int, s: Sample)
    requires
        hist.len() <= 250 || (has_api(hist) && hist.len() <= 1500) || (holds_plain_api_spend(hist)
            && hist.len() <= 1500),
        hist.contains(s),
        s.t > clamp_i64(now - 93_600),
    ensures
        retained(hist, now).contains(s),
{
    if holds_plain_api_spend(hist) {
        lemma_plain_api(hist);
    }
    lemma_kept(hist, now, s);
}

/// Where API-key spend is in the history, a sample of 26 hours or more is dropped, unless its
/// session reported windows.
pub proof fn an_old_sample_goes_once_there_is_api_spend(hist: Seq<Sample>, now: int, s: Sample)
    requires
        has_api(hist) || holds_plain_api_spend(hist),
        s.t <= clamp_i64(now - 93_600),
        forall|j: int|
            0 <= j < hist.len() && sample_key(#[trigger] hist[j]) == sample_key(s)
                ==> !on_subscription(hist[j]),
    ensures
        !retained(hist, now).contains(s),
{
    if holds_plain_api_spend(hist) {
        lemma_plain_api(hist);
    }
    let list = anchors_in(hist);
    let recent = aged(hist, now);
    lemma_keep_recent(hist, clamp_i64(now - 93_600), list, s);
    if recent.len() > entry_cap(hist) {
        lemma_drop_oldest(recent, (recent.len() - entry_cap(hist)) as nat, list);
        assert(retained(hist, now).contains(s) ==> recent.contains(s));
    }
    if is_reserved(list, s) {
        lemma_reserved_has_windows(hist, sample_key(s)->0, s.t);
        let ws = windows_in(hist, sample_key(s)->0);
        assert(ws.contains(ws[0]));
        lemma_session_points(hist, sample_key(s)->0, ws[0]);
        let w = choose|w: Sample| #[trigger]
            hist.contains(w) && sample_key(w) == sample_key(s) && on_subscription(w) && w.t
                == ws[0].0;
        let j = hist.index_of(w);
        assert(sample_key(hist[j]) == sample_key(s));
    }
}

proof fn lemma_quiet_keys(windows: Seq<Event>, costs: Seq<Event>, n: nat, i: int)
    requires
        0 <= i < quiet_upto(windows, costs, n).len(),
        n <= keys_in(windows).len(),
    ensures
        ({
            let q = quiet_upto(windows, costs, n)[i];
            quiet_of(points_of(windows, q.key), points_of(costs, q.key), q.key) == Some(q)
        }),
    decreases n,
{
    if n > 0 {
        let before = quiet_upto(windows, costs, (n - 1) as nat);
        if i < before.len() {
            lemma_quiet_keys(windows, costs, (n - 1) as nat, i);
        }
    }
}

proof fn lemma_reserve_source(order: Seq<Quiet>, n: nat, e: (Seq<char>, i64))
    requires
        reserve(order, n).contains(e),
        n <= order.len(),
    ensures
        exists|i: int|
            0 <= i < order.len() && (#[trigger] order[i]).key == e.0 && (order[i].window == e.1
                || order[i].cost == e.1),
    decreases n,
{
    if n > 0 {
        let q = order[n - 1];
        let before = reserve(order, (n - 1) as nat);
        let i = reserve(order, n).index_of(e);
        if i < before.len() {
            assert(before[i] == e);
            lemma_reserve_source(order, (n - 1) as nat, e);
        } else {
            assert(order[n - 1].key == e.0);
        }
    }
}

/// A reserved sample is of a session that reported windows.
proof fn lemma_reserved_has_windows(hist: Seq<Sample>, k: Seq<char>, t: i64)
    requires
        anchors_in(hist).contains((k, t)),
    ensures
        windows_in(hist, k).len() > 0,
{
    let (windows, costs) = (window_events(hist), cost_events(hist));
    let quiet = quiet_sessions(windows, costs);
    let order = ranked(quiet);
    quiet_sessions_are_ranked_by_recency(quiet);
    let n: nat = if order.len() < 16 {
        order.len()
    } else {
        16
    };
    lemma_reserve_source(order, n, (k, t));
    let i = choose|i: int|
        0 <= i < order.len() && (#[trigger] order[i]).key == k && (order[i].window == t
            || order[i].cost == t);
    assert(order.contains(order[i]));
    assert(quiet.contains(order[i]));
    let j = quiet.index_of(order[i]);
    lemma_quiet_keys(windows, costs, keys_in(windows).len(), j);
}

/// Whether no session went on without windows, with a cost, after it had reported some.
pub open spec fn no_session_went_quiet(hist: Seq<Sample>) -> bool {
    forall|i: int, j: int|
        0 <= i < hist.len() && 0 <= j < hist.len() && sample_key(hist[i]) is Some && sample_key(
            #[trigger] hist[i],
        ) == sample_key(#[trigger] hist[j]) && on_subscription(hist[i]) && !on_subscription(hist[j])
            && hist[j].usd is Some ==> hist[j].t <= hist[i].t
}

proof fn lemma_nothing_reserved(hist: Seq<Sample>)
    requires
        no_session_went_quiet(hist),
    ensures
        anchors_in(hist).len() == 0,
{
    let (windows, costs) = (window_events(hist), cost_events(hist));
    let quiet = quiet_sessions(windows, costs);
    quiet_sessions_are_ranked_by_recency(quiet);
    if quiet.len() > 0 {
        lemma_quiet_keys(windows, costs, keys_in(windows).len(), 0);
        let k = quiet[0].key;
        let (ws, cs) = (points_of(windows, k), points_of(costs, k));
        lemma_last_time(ws);
        let late = later_than(cs, last_time(ws) as int);
        let w = choose|i: int| 0 <= i < ws.len() && (#[trigger] ws[i]).0 == last_time(ws);
        assert(ws.contains(ws[w]) && late.contains(late[0]));
        lemma_later_contains(cs, last_time(ws) as int, late[0]);
        lemma_session_points(hist, k, ws[w]);
        lemma_session_points(hist, k, late[0]);
        let a = choose|s: Sample| #[trigger]
            hist.contains(s) && sample_key(s) == Some(k) && on_subscription(s) && s.t == ws[w].0;
        let b = choose|s: Sample| #[trigger]
            hist.contains(s) && sample_key(s) == Some(k) && !on_subscription(s) && s.t == late[0].0
                && s.usd == Some(late[0].1);
        let (i, j) = (hist.index_of(a), hist.index_of(b));
        assert(sample_key(hist[i]) == sample_key(hist[j]));
    }
}

proof fn lemma_drop_front(hist: Seq<Sample>, n: nat, list: Seq<(Seq<char>, i64)>)
    requires
        n <= hist.len(),
        list.len() == 0,
    ensures
        drop_oldest(hist, n, list) == hist.skip(n as int),
    decreases hist.len(),
{
    if n > 0 {
        lemma_drop_front(hist.drop_first(), (n - 1) as nat, list);
        assert(hist.drop_first().skip(n - 1) =~= hist.skip(n as int));
    } else {
        assert(hist.skip(0) =~= hist);
    }
}

/// Whether a sample is younger than 26 hours.
pub open spec fn young(now: int) -> spec_fn(Sample) -> bool {
    |s: Sample| s.t > clamp_i64(now - 93_600)
}

proof fn lemma_keep_young(hist: Seq<Sample>, now: int, list: Seq<(Seq<char>, i64)>)
    requires
        list.len() == 0,
    ensures
        keep_recent(hist, clamp_i64(now - 93_600), list) == hist.filter(young(now)),
    decreases hist.len(),
{
    reveal(Seq::filter);
    if hist.len() > 0 {
        lemma_keep_young(hist.drop_last(), now, list);
    } else {
        assert(keep_recent(hist, clamp_i64(now - 93_600), list) =~= hist.filter(young(now)));
    }
}

/// The last `n` of a sequence, or all of it.
pub open spec fn newest(s: Seq<Sample>, n: int) -> Seq<Sample> {
    if s.len() > n {
        s.skip(s.len() - n)
    } else {
        s
    }
}

/// Where no session went quiet, a prune keeps the newest: 250 samples of a subscription's history,
/// however old, and once there is API-key spend 1500 of those younger than 26 hours. They stay in
/// their order.
pub proof fn a_prune_keeps_the_newest(hist: Seq<Sample>, now: int)
    requires
        no_session_went_quiet(hist),
    ensures
        has_api(hist) ==> retained(hist, now) == newest(hist.filter(young(now)), 1500),
        !has_api(hist) ==> retained(hist, now) == newest(hist, 250),
        (forall|i: int| 0 <= i < hist.len() ==> !(#[trigger] hist[i]).api) ==> !has_api(hist),
        holds_plain_api_spend(hist) ==> has_api(hist),
{
    lemma_nothing_reserved(hist);
    let list = anchors_in(hist);
    let recent = aged(hist, now);
    lemma_keep_young(hist, now, list);
    if recent.len() > entry_cap(hist) {
        lemma_drop_front(recent, (recent.len() - entry_cap(hist)) as nat, list);
    }
    if holds_plain_api_spend(hist) {
        lemma_plain_api(hist);
    }
}

/// Whether the samples of `a` stand in `b`, in the same order.
pub open spec fn stands_in(a: Seq<Sample>, b: Seq<Sample>) -> bool {
    exists|at: Seq<int>| #[trigger] places(at, a, b)
}

/// Whether `at` gives each sample of `a` a place in `b`, in ascending order.
pub open spec fn places(at: Seq<int>, a: Seq<Sample>, b: Seq<Sample>) -> bool {
    &&& at.len() == a.len()
    &&& forall|i: int| 0 <= i < at.len() ==> 0 <= #[trigger] at[i] < b.len() && a[i] == b[at[i]]
    &&& forall|i: int, j: int| 0 <= i < j < at.len() ==> #[trigger] at[i] < #[trigger] at[j]
}

proof fn lemma_stands_in_itself(a: Seq<Sample>)
    ensures
        stands_in(a, a),
{
    let at = Seq::new(a.len(), |i: int| i);
    assert(places(at, a, a));
}

proof fn lemma_stands_through(a: Seq<Sample>, b: Seq<Sample>, c: Seq<Sample>)
    requires
        stands_in(a, b),
        stands_in(b, c),
    ensures
        stands_in(a, c),
{
    let f = choose|at: Seq<int>| #[trigger] places(at, a, b);
    let g = choose|at: Seq<int>| #[trigger] places(at, b, c);
    let h = Seq::new(a.len(), |i: int| g[f[i]]);
    assert forall|i: int, j: int| 0 <= i < j < h.len() implies #[trigger] h[i] < #[trigger] h[j] by {
        assert(f[i] < f[j]);
    }
    assert forall|i: int| 0 <= i < h.len() implies 0 <= #[trigger] h[i] < c.len() && a[i]
        == c[h[i]] by {
        assert(0 <= f[i] < b.len());
    }
    assert(places(h, a, c));
}

proof fn lemma_keep_recent_order(hist: Seq<Sample>, cutoff: int, list: Seq<(Seq<char>, i64)>)
    ensures
        stands_in(keep_recent(hist, cutoff, list), hist),
    decreases hist.len(),
{
    let r = keep_recent(hist, cutoff, list);
    if hist.len() == 0 {
        assert(places(Seq::empty(), r, hist));
    } else {
        let head = hist.drop_last();
        lemma_keep_recent_order(head, cutoff, list);
        let before = keep_recent(head, cutoff, list);
        let at = choose|at: Seq<int>| #[trigger] places(at, before, head);
        if r == before {
            assert forall|i: int| 0 <= i < at.len() implies 0 <= #[trigger] at[i] < hist.len()
                && r[i] == hist[at[i]] by {
                assert(head[at[i]] == hist[at[i]]);
            }
            assert(places(at, r, hist));
        } else {
            let more = at.push(hist.len() - 1);
            assert forall|i: int| 0 <= i < more.len() implies 0 <= #[trigger] more[i] < hist.len()
                && r[i] == hist[more[i]] by {
                if i < at.len() {
                    assert(more[i] == at[i] && head[at[i]] == hist[at[i]]);
                }
            }
            assert forall|i: int, j: int| 0 <= i < j < more.len() implies #[trigger] more[i]
                < #[trigger] more[j] by {
                assert(more[i] == at[i]);
                if j < at.len() {
                    assert(more[j] == at[j]);
                }
            }
            assert(places(more, r, hist));
        }
    }
}

proof fn lemma_drop_oldest_order(hist: Seq<Sample>, n: nat, list: Seq<(Seq<char>, i64)>)
    ensures
        stands_in(drop_oldest(hist, n, list), hist),
    decreases hist.len(),
{
    if hist.len() == 0 || n == 0 {
        lemma_stands_in_itself(hist);
    } else {
        let rest = hist.drop_first();
        let r = drop_oldest(hist, n, list);
        if is_reserved(list, hist[0]) {
            lemma_drop_oldest_order(rest, n, list);
            let tail = drop_oldest(rest, n, list);
            let at = choose|at: Seq<int>| #[trigger] places(at, tail, rest);
            let more = Seq::new(
                r.len(),
                |i: int|
                    if i == 0 {
                        0
                    } else {
                        at[i - 1] + 1
                    },
            );
            assert forall|i: int| 0 <= i < more.len() implies 0 <= #[trigger] more[i] < hist.len()
                && r[i] == hist[more[i]] by {
                if i > 0 {
                    assert(r[i] == tail[i - 1] && rest[at[i - 1]] == hist[at[i - 1] + 1]);
                }
            }
            assert forall|i: int, j: int| 0 <= i < j < more.len() implies #[trigger] more[i]
                < #[trigger] more[j] by {
                if i > 0 {
                    assert(at[i - 1] < at[j - 1]);
                } else {
                    assert(0 <= at[j - 1]);
                }
            }
            assert(places(more, r, hist));
        } else {
            lemma_drop_oldest_order(rest, (n - 1) as nat, list);
            let at = choose|at: Seq<int>| #[trigger] places(at, r, rest);
            let more = Seq::new(r.len(), |i: int| at[i] + 1);
            assert forall|i: int| 0 <= i < more.len() implies 0 <= #[trigger] more[i] < hist.len()
                && r[i] == hist[more[i]] by {
                assert(rest[at[i]] == hist[at[i] + 1]);
            }
            assert forall|i: int, j: int| 0 <= i < j < more.len() implies #[trigger] more[i]
                < #[trigger] more[j] by {
                assert(at[i] < at[j]);
            }
            assert(places(more, r, hist));
        }
    }
}

/// A prune keeps samples of the history, in their order, and changes none of them.
pub proof fn a_prune_keeps_the_order(hist: Seq<Sample>, now: int)
    ensures
        stands_in(retained(hist, now), hist),
{
    let recent = aged(hist, now);
    lemma_stands_in_itself(hist);
    if has_api(hist) {
        lemma_keep_recent_order(hist, clamp_i64(now - 93_600), anchors_in(hist));
    }
    assert(stands_in(recent, hist));
    if recent.len() > entry_cap(hist) {
        let n = (recent.len() - entry_cap(hist)) as nat;
        lemma_drop_oldest_order(recent, n, anchors_in(hist));
        lemma_stands_through(drop_oldest(recent, n, anchors_in(hist)), recent, hist);
    }
}

proof fn lemma_quiet_is_listed(windows: Seq<Event>, costs: Seq<Event>, n: nat, m: int, q: Quiet)
    requires
        0 <= m < n <= keys_in(windows).len(),
        keys_in(windows)[m] == q.key,
        quiet_of(points_of(windows, q.key), points_of(costs, q.key), q.key) == Some(q),
    ensures
        quiet_upto(windows, costs, n).contains(q),
    decreases n,
{
    let before = quiet_upto(windows, costs, (n - 1) as nat);
    let key = keys_in(windows)[n - 1];
    if m < n - 1 {
        lemma_quiet_is_listed(windows, costs, (n - 1) as nat, m, q);
    }
    match quiet_of(points_of(windows, key), points_of(costs, key), key) {
        Some(x) => lemma_push_contains(before, x, q),
        None => {},
    }
}

/// Where no more than sixteen sessions went quiet, a prune keeps, for each of them, however old, the
/// last sample that shows it under a subscription, and the last that shows its counter after that.
pub proof fn the_evidence_of_sixteen_quiet_sessions_is_kept(
    hist: Seq<Sample>,
    now: int,
    k: Seq<char>,
    w: int,
    c: int,
)
    requires
        quiet_sessions(window_events(hist), cost_events(hist)).len() <= 16,
        0 <= w < hist.len(),
        shows_windows(hist[w], k),
        forall|i: int|
            0 <= i < hist.len() && shows_windows(#[trigger] hist[i], k) ==> hist[i].t <= hist[w].t,
        0 <= c < hist.len(),
        shows_counter(hist[c], k, hist[w].t as int),
        forall|i: int|
            0 <= i < hist.len() && shows_counter(#[trigger] hist[i], k, hist[w].t as int)
                ==> hist[i].t <= hist[c].t,
    ensures
        retained(hist, now).contains(hist[w]),
        retained(hist, now).contains(hist[c]),
{
    let (windows, costs) = (window_events(hist), cost_events(hist));
    let (ws, cs) = (windows_in(hist, k), costs_in(hist, k));
    let t = hist[w].t as int;
    let top: Point = (hist[w].t, 0i64);
    let end: Point = (hist[c].t, hist[c].usd->0);
    assert(hist.contains(hist[w]) && hist.contains(hist[c]));
    lemma_session_points(hist, k, top);
    lemma_session_points(hist, k, end);
    assert forall|p: Point| #[trigger] ws.contains(p) implies p.0 <= top.0 by {
        lemma_session_points(hist, k, p);
        let s = choose|s: Sample| #[trigger]
            hist.contains(s) && sample_key(s) == Some(k) && on_subscription(s) && s.t == p.0;
        assert(shows_windows(hist[hist.index_of(s)], k));
    }
    lemma_is_last_time(ws, top);
    let late = later_than(cs, t);
    lemma_later_contains(cs, t, end);
    assert forall|p: Point| #[trigger] late.contains(p) implies p.0 <= end.0 by {
        lemma_later_contains(cs, t, p);
        lemma_session_points(hist, k, p);
        let s = choose|s: Sample| #[trigger]
            hist.contains(s) && sample_key(s) == Some(k) && !on_subscription(s) && s.t == p.0
                && s.usd == Some(p.1);
        assert(shows_counter(hist[hist.index_of(s)], k, t));
    }
    lemma_is_last_time(late, end);
    let q = Quiet { key: k, window: hist[w].t, cost: hist[c].t };
    assert(quiet_of(ws, cs, k) == Some(q));
    lemma_keys_have_points(windows, k);
    assert(keys_in(windows).contains(k));
    let quiet = quiet_sessions(windows, costs);
    lemma_quiet_is_listed(
        windows,
        costs,
        keys_in(windows).len(),
        keys_in(windows).index_of(k),
        q,
    );
    quiet_sessions_are_ranked_by_recency(quiet);
    assert(ranked(quiet).contains(q));
    the_most_recent_quiet_sessions_are_reserved(windows, costs, ranked(quiet).index_of(q));
    retention_spares_reserved_samples(hist, now);
    assert(is_reserved(anchors_in(hist), hist[w]));
    assert(is_reserved(anchors_in(hist), hist[c]));
}

// ---------------------------------------------------------------------------------------
// When a payload is logged, and what its sample records
// ---------------------------------------------------------------------------------------

/// A payload that shows its billing is logged a minute after the last sample at the latest, unless
/// it comes from a session that stopped reporting windows.
pub proof fn a_payload_is_logged_after_a_minute(hist: Seq<Sample>, t: Tree, now: int)
    requires
        mode_of(t) != Mode::Unknown,
        hist.len() == 0 || hist.last().t <= clamp_i64(now - 60),
        mode_of(t) == Mode::Subscription || forall|i: int|
            0 <= i < hist.len() ==> !on_subscription(#[trigger] hist[i]) || sample_key(hist[i])
                != payload_key(t),
    ensures
        is_due(hist, t, now),
{
    if is_held(hist, t, now) {
        let k = payload_key(t)->0;
        let ws = windows_in(hist, k);
        assert(ws.contains(ws[0]));
        lemma_session_points(hist, k, ws[0]);
        let w = choose|w: Sample| #[trigger]
            hist.contains(w) && sample_key(w) == Some(k) && on_subscription(w) && w.t == ws[0].0;
        assert(on_subscription(hist[hist.index_of(w)]));
    }
}

/// A history holds API-key spend exactly if a sample is flagged that was not taken within 45 minutes
/// of a moment at which its session was under a subscription. Spend without a session counts.
pub proof fn spend_around_a_subscription_does_not_grow_the_log(hist: Seq<Sample>)
    ensures
        has_api(hist) <==> exists|i: int|
            0 <= i < hist.len() && (#[trigger] hist[i]).api && (sample_key(hist[i]) is None
                || !subscribed_around(hist, sample_key(hist[i])->0, hist[i].t as int)),
{
    assert forall|i: int| 0 <= i < hist.len() implies genuine_api(hist, #[trigger] hist[i]) == (
    hist[i].api && (sample_key(hist[i]) is None || !subscribed_around(
        hist,
        sample_key(hist[i])->0,
        hist[i].t as int,
    ))) by {
        if sample_key(hist[i]) is Some {
            lemma_near(hist, sample_key(hist[i])->0, hist[i].t as int);
        }
    }
}

/// Whether a sample tells how the session `k` is billed.
pub open spec fn tells_billing(s: Sample, k: Seq<char>) -> bool {
    sample_key(s) == Some(k) && (on_subscription(s) || s.usd is Some)
}

/// A change of billing is logged however busy other sessions keep the log, once a minute has passed
/// since the session's own last sample: a subscription that is new to a session seen without one, and
/// a cost that is new to a session seen under a subscription only.
pub proof fn a_change_of_billing_is_logged(hist: Seq<Sample>, t: Tree, now: int, k: Seq<char>, i: int)
    requires
        payload_key(t) == Some(k),
        0 <= i < hist.len(),
        tells_billing(hist[i], k),
        forall|j: int|
            0 <= j < hist.len() && tells_billing(#[trigger] hist[j], k) ==> hist[j].t <= clamp_i64(
                now - 60,
            ),
        (mode_of(t) == Mode::Subscription && !on_subscription(hist[i]) && forall|j: int|
            0 <= j < hist.len() && shows_windows(#[trigger] hist[j], k) ==> hist[j].t < hist[i].t)
            || (mode_of(t) == Mode::ApiKey && forall|j: int|
            0 <= j < hist.len() && tells_billing(#[trigger] hist[j], k) ==> on_subscription(
                hist[j],
            )),
    ensures
        is_due(hist, t, now),
{
    let (ws, cs) = (windows_in(hist, k), costs_in(hist, k));
    assert forall|p: Point| #[trigger] ws.contains(p) implies p.0 <= clamp_i64(now - 60) && exists|
        j: int,
    |
        0 <= j < hist.len() && shows_windows(#[trigger] hist[j], k) && hist[j].t == p.0 by {
        lemma_session_points(hist, k, p);
        let s = choose|s: Sample| #[trigger]
            hist.contains(s) && sample_key(s) == Some(k) && on_subscription(s) && s.t == p.0;
        let j = hist.index_of(s);
        assert(tells_billing(hist[j], k) && shows_windows(hist[j], k));
    }
    assert forall|p: Point| #[trigger] cs.contains(p) implies p.0 <= clamp_i64(now - 60) && exists|
        j: int,
    |
        0 <= j < hist.len() && tells_billing(#[trigger] hist[j], k) && !on_subscription(hist[j])
            && hist[j].t == p.0 by {
        lemma_session_points(hist, k, p);
        let s = choose|s: Sample| #[trigger]
            hist.contains(s) && sample_key(s) == Some(k) && !on_subscription(s) && s.t == p.0
                && s.usd == Some(p.1);
        let j = hist.index_of(s);
        assert(tells_billing(hist[j], k));
    }
    assert(hist.contains(hist[i]));
    if ws.len() > 0 {
        lemma_last_time(ws);
        let n = choose|n: int| 0 <= n < ws.len() && (#[trigger] ws[n]).0 == last_time(ws);
        assert(ws.contains(ws[n]));
    }
    if cs.len() > 0 {
        lemma_last_time(cs);
        let n = choose|n: int| 0 <= n < cs.len() && (#[trigger] cs[n]).0 == last_time(cs);
        assert(cs.contains(cs[n]));
    }
    if mode_of(t) == Mode::Subscription {
        let p: Point = (hist[i].t, hist[i].usd->0);
        lemma_session_points(hist, k, p);
        assert(cs.contains(p));
        assert(cs[cs.index_of(p)] == p);
        assert(changes_shape(hist, t, now));
    } else {
        let p: Point = (hist[i].t, 0i64);
        lemma_session_points(hist, k, p);
        assert(ws.contains(p));
        assert(ws.len() > 0);
        if cs.len() > 0 {
            assert(cs.contains(cs[0]));
        }
        assert(changes_shape(hist, t, now));
        assert(!repeats_counter(hist, t));
    }
}

/// Within a minute of the last sample a session that was not seen before is not logged, nor is one
/// that was seen within that minute, nor a payload that shows no billing.
pub proof fn samples_are_a_minute_apart(hist: Seq<Sample>, t: Tree, now: int)
    requires
        mode_of(t) == Mode::Unknown || (hist.len() > 0 && hist.last().t > clamp_i64(now - 60) && (
        payload_key(t) is None || (exists|i: int|
            0 <= i < hist.len() && sample_key(#[trigger] hist[i]) == payload_key(t)
                && hist[i].t > clamp_i64(now - 60) && (on_subscription(hist[i]) || hist[i].usd
                is Some)) || forall|i: int|
            0 <= i < hist.len() ==> sample_key(#[trigger] hist[i]) != payload_key(t))),
    ensures
        !is_due(hist, t, now),
{
    if payload_key(t) is Some && mode_of(t) != Mode::Unknown {
        let k = payload_key(t)->0;
        let (ws, cs) = (windows_in(hist, k), costs_in(hist, k));
        if ws.len() > 0 {
            lemma_last_time(ws);
        }
        if cs.len() > 0 {
            lemma_last_time(cs);
        }
        if exists|i: int|
            0 <= i < hist.len() && sample_key(#[trigger] hist[i]) == Some(k) && hist[i].t
                > clamp_i64(now - 60) && (on_subscription(hist[i]) || hist[i].usd is Some) {
            let i = choose|i: int|
                0 <= i < hist.len() && sample_key(#[trigger] hist[i]) == Some(k) && hist[i].t
                    > clamp_i64(now - 60) && (on_subscription(hist[i]) || hist[i].usd is Some);
            let s = hist[i];
            assert(hist.contains(s));
            if on_subscription(s) {
                let p: Point = (s.t, 0i64);
                lemma_session_points(hist, k, p);
                assert(ws[ws.index_of(p)] == p);
            } else {
                let p: Point = (s.t, s.usd->0);
                lemma_session_points(hist, k, p);
                assert(cs[cs.index_of(p)] == p);
            }
        } else {
            if ws.len() > 0 {
                assert(ws.contains(ws[0]));
                lemma_session_points(hist, k, ws[0]);
                let w = choose|w: Sample| #[trigger]
                    hist.contains(w) && sample_key(w) == Some(k) && on_subscription(w) && w.t
                        == ws[0].0;
                assert(sample_key(hist[hist.index_of(w)]) == Some(k));
            }
            if cs.len() > 0 {
                assert(cs.contains(cs[0]));
                lemma_session_points(hist, k, cs[0]);
                let w = choose|w: Sample| #[trigger]
                    hist.contains(w) && sample_key(w) == Some(k) && !on_subscription(w) && w.t
                        == cs[0].0 && w.usd == Some(cs[0].1);
                assert(sample_key(hist[hist.index_of(w)]) == Some(k));
            }
        }
    }
}

/// The object under `name` in the payload's `rate_limits`.
pub open spec fn limits_entry(t: Tree, name: Seq<char>, w: Tree) -> bool {
    child(t, "rate_limits"@) matches Some(limits) && child(limits, name) == Some(w) && w
        != Tree::Null
}

/// A number that a payload states.
pub open spec fn states_number(w: Tree, key: Seq<char>, v: i64) -> bool {
    child(w, key) matches Some(Tree::Num(text)) && number_of(text) == Some(Num::Finite(v))
}

pub(crate) proof fn lemma_limits_entry(t: Tree, name: Seq<char>, w: Tree)
    requires
        limits_entry(t, name, w),
    ensures
        nested_tree(t, seq!["rate_limits"@, name]) == Some(w),
{
    reveal_with_fuel(nested_tree, 3);
    let path = seq!["rate_limits"@, name];
    assert(path.drop_first() =~= seq![name]);
    assert(path.drop_first().drop_first() =~= Seq::<Seq<char>>::empty());
}

/// A sample records what the payload states: the percentage and the reset of each window under its
/// own name, the session's cost, and the tokens in its context.
pub proof fn a_sample_records_what_the_payload_states(
    s: Sample,
    hist: Seq<Sample>,
    t: Tree,
    now: int,
    w: Tree,
    v: i64,
)
    requires
        describes(s, hist, t, now),
    ensures
        s.t == now,
        limits_entry(t, "five_hour"@, w) && states_number(w, "used_percentage"@, v) ==> s.h5 == Some(
            v,
        ),
        limits_entry(t, "seven_day"@, w) && states_number(w, "used_percentage"@, v) ==> s.d7 == Some(
            v,
        ),
        limits_entry(t, "five_hour"@, w) && states_number(w, "resets_at"@, v) ==> s.h5r == Some(v),
        limits_entry(t, "seven_day"@, w) && states_number(w, "resets_at"@, v) ==> s.d7r == Some(v),
        child(t, "cost"@) == Some(w) && (child(w, "total_cost_usd"@) matches Some(Tree::Num(text))
            && amount_of(text) == Some(Num::Finite(v))) ==> s.usd == Some(v),
        child(t, "context_window"@) == Some(w) && (child(w, "total_input_tokens"@) matches Some(
            Tree::Num(text),
        ) && integer_of(text) == Some(v as int)) ==> s.tin == Some(v),
        child(t, "context_window"@) == Some(w) && (child(w, "total_output_tokens"@) matches Some(
            Tree::Num(text),
        ) && integer_of(text) == Some(v as int)) ==> s.tout == Some(v),
{
    if limits_entry(t, "five_hour"@, w) {
        lemma_limits_entry(t, "five_hour"@, w);
    }
    if limits_entry(t, "seven_day"@, w) {
        lemma_limits_entry(t, "seven_day"@, w);
    }
    lemma_two_steps(t, "cost"@, "total_cost_usd"@);
    lemma_two_steps(t, "context_window"@, "total_input_tokens"@);
    lemma_two_steps(t, "context_window"@, "total_output_tokens"@);
}

pub(crate) proof fn lemma_two_steps(t: Tree, a: Seq<char>, b: Seq<char>)
    ensures
        child(t, a) matches Some(w) ==> (child(w, b) matches Some(x) ==> x != Tree::Null
            ==> nested_tree(t, seq![a, b]) == Some(x)),
{
    reveal_with_fuel(nested_tree, 3);
    let path = seq![a, b];
    assert(path.drop_first() =~= seq![b]);
    assert(path.drop_first().drop_first() =~= Seq::<Seq<char>>::empty());
}

} // verus!
