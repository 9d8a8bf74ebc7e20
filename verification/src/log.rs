//! Appending to the history: what a payload adds, when it may add it, and what is kept.

use vstd::prelude::*;

use crate::history::{
    anchor_list, copy_sample, cost_events, costs_in, fewer_samples_never_release, has_window_data,
    hold_of, key_of, key_of_sample, last_shape, last_time, latest, later_than, lemma_is_last_time,
    lemma_last_time, lemma_later_contains, lemma_session_points, near_window, never_falls,
    newest_counter, on_subscription, quiet_of, quiet_sessions, quiet_sessions_are_ranked_by_recency,
    quiet_upto, ranked, reserved, sample_key, session_key, session_key_is_stable, sid_text,
    the_most_recent_quiet_sessions_are_reserved, window_events, windowed, windows_in, Quiet, Sample,
    SubSessions, MAX_AGE_SECS, MAX_ANCHOR_SESSIONS, MAX_ENTRIES, MAX_ENTRIES_API, SAMPLE_INTERVAL,
};
use crate::json::{
    cost_of, get_pct, get_reset, i64_at, integer_at, keys_of, mode_of, nested, nested_tree,
    payload_mode, real_cost_is_finite, stated_cost, str_at, text_at, window_pct, window_reset, Json,
    Mode, Tree,
};
use crate::num::{clamp_i64, saturate, Micros, Num};
use crate::series::{keys_in, lemma_push_contains, points_of, Event, Point};

verus! {

// ---------------------------------------------------------------------------------------
// The sample a payload adds
// ---------------------------------------------------------------------------------------

/// The session's cost, if the payload states a finite one.
pub open spec fn finite_cost(t: Tree) -> Option<i64> {
    finite_part(stated_cost(t))
}

pub open spec fn finite_part(n: Option<Num>) -> Option<i64> {
    match n {
        Some(x) => x.finite_value(),
        None => None,
    }
}

/// The session a payload belongs to.
pub open spec fn payload_key(t: Tree) -> Option<Seq<char>> {
    key_of(text_at(t, seq!["session_id"@]))
}

/// Whether a payload that looks like API-key billing comes from a session that may still be
/// on a subscription.
pub open spec fn is_held(hist: Seq<Sample>, t: Tree, now: int) -> bool {
    &&& mode_of(t) == Mode::ApiKey
    &&& payload_key(t) matches Some(k)
    &&& hold_of(windows_in(hist, k), costs_in(hist, k), finite_cost(t), now) is Some
}

/// Whether the payload's counter is the one its session showed last.
pub open spec fn repeats_counter(hist: Seq<Sample>, t: Tree) -> bool {
    &&& payload_key(t) matches Some(k)
    &&& finite_cost(t) is Some
    &&& newest_counter(costs_in(hist, k)) == finite_cost(t)
}

/// Whether this session logged nothing in the last interval but was seen before.
pub open spec fn session_slot_free(hist: Seq<Sample>, t: Tree, now: int) -> bool {
    &&& payload_key(t) matches Some(k)
    &&& last_shape(windows_in(hist, k), costs_in(hist, k)) matches Some((at, _))
    &&& at <= clamp_i64(now - SAMPLE_INTERVAL)
}

/// Whether the payload records its session changing billing shape.
pub open spec fn changes_shape(hist: Seq<Sample>, t: Tree, now: int) -> bool {
    &&& session_slot_free(hist, t, now)
    &&& payload_key(t) matches Some(k)
    &&& last_shape(windows_in(hist, k), costs_in(hist, k)) matches Some((_, was_sub))
    &&& was_sub != (mode_of(t) == Mode::Subscription)
}

/// Whether the payload of a held session shows its counter moved.
pub open spec fn moves_probe(hist: Seq<Sample>, t: Tree, now: int) -> bool {
    &&& is_held(hist, t, now)
    &&& !repeats_counter(hist, t)
    &&& session_slot_free(hist, t, now)
}

/// Whether the shared slot is taken: the last sample, of any session, is too recent.
pub open spec fn throttled(hist: Seq<Sample>, now: int) -> bool {
    hist.len() > 0 && hist.last().t > clamp_i64(now - SAMPLE_INTERVAL)
}

/// Whether a payload adds a sample to the history.
pub open spec fn is_due(hist: Seq<Sample>, t: Tree, now: int) -> bool {
    &&& mode_of(t) != Mode::Unknown
    &&& !throttled(hist, now) || changes_shape(hist, t, now) || moves_probe(hist, t, now)
    &&& !(is_held(hist, t, now) && repeats_counter(hist, t))
}

pub open spec fn limit_window(t: Tree, name: Seq<char>) -> Option<Tree> {
    nested_tree(t, seq!["rate_limits"@, name])
}

pub open spec fn limit_pct(t: Tree, name: Seq<char>) -> Option<Num> {
    match limit_window(t, name) {
        Some(w) => window_pct(w),
        None => None,
    }
}

pub open spec fn limit_reset(t: Tree, name: Seq<char>) -> Option<Num> {
    match limit_window(t, name) {
        Some(w) => window_reset(w),
        None => None,
    }
}

/// Whether `s` is the sample that the payload adds at `now`.
pub open spec fn describes(s: Sample, hist: Seq<Sample>, t: Tree, now: int) -> bool {
    &&& s.t == now
    &&& s.h5 == finite_part(limit_pct(t, "five_hour"@))
    &&& s.d7 == finite_part(limit_pct(t, "seven_day"@))
    &&& s.h5r == finite_part(limit_reset(t, "five_hour"@))
    &&& s.d7r == finite_part(limit_reset(t, "seven_day"@))
    &&& sid_text(s.sid) == payload_key(t)
    &&& s.usd == finite_cost(t)
    &&& s.tin == integer_at(t, seq!["context_window"@, "total_input_tokens"@])
    &&& s.tout == integer_at(t, seq!["context_window"@, "total_output_tokens"@])
    &&& s.api == (mode_of(t) == Mode::ApiKey && !is_held(hist, t, now))
    &&& s.sub == (mode_of(t) == Mode::Subscription && !windowed(s))
}

fn finite_of(n: Option<Num>) -> (r: Option<Micros>)
    ensures
        r == finite_part(n),
{
    match n {
        Some(x) => x.finite(),
        None => None,
    }
}

/// The finite cost a payload states.
pub fn finite_cost_of(input: &Json) -> (r: Option<Micros>)
    ensures
        r == finite_cost(input@),
{
    finite_of(cost_of(input))
}

/// The session a payload belongs to.
pub fn payload_session(input: &Json) -> (r: Option<String>)
    ensures
        sid_text(r) == payload_key(input@),
{
    let path: [&str; 1] = ["session_id"];
    assert(keys_of(path@) =~= seq!["session_id"@]);
    session_key(str_at(input, &path))
}

/// The named rate-limit window of a payload, unless it is missing or null.
pub fn window_of<'a>(input: &'a Json, name: &str) -> (r: Option<&'a Json>)
    ensures
        match limit_window(input@, name@) {
            Some(t) => r matches Some(x) && x@ == t,
            None => r is None,
        },
{
    let path: [&str; 2] = ["rate_limits", name];
    assert(keys_of(path@) =~= seq!["rate_limits"@, name@]);
    nested(input, &path)
}

/// The usage percentage of the named window.
pub fn window_pct_of(input: &Json, name: &str) -> (r: Option<Num>)
    ensures
        r == limit_pct(input@, name@),
{
    match window_of(input, name) {
        Some(w) => get_pct(w),
        None => None,
    }
}

/// The reset epoch of the named window.
pub fn window_reset_of(input: &Json, name: &str) -> (r: Option<Num>)
    ensures
        r == limit_reset(input@, name@),
{
    match window_of(input, name) {
        Some(w) => get_reset(w),
        None => None,
    }
}

fn tokens_of(input: &Json, name: &str) -> (r: Option<i64>)
    ensures
        r == integer_at(input@, seq!["context_window"@, name@]),
{
    let path: [&str; 2] = ["context_window", name];
    assert(keys_of(path@) =~= seq!["context_window"@, name@]);
    i64_at(input, &path)
}

/// The sample a payload adds to the history, if it is due.
///
/// Subscription samples log as they come; API-key samples only once [`payload_mode`] has seen
/// real positive cost. A session that recently reported window data stays a subscription
/// session until its own cost counter proves the billing changed for good (see
/// [`SubSessions::hold`]). Until then the sample is still written, just demoted to a
/// window-less *probe*: it can never count as spend, and it is the observation that proof is
/// later built from. Only a counter that has *moved* is worth a slot: a resumed session can
/// sit frozen for hours, and repeating that value would churn through the retention cap.
///
/// Two kinds of sample are exempt from the shared throttle slot, each bounded to one extra
/// write per minute per session. One records a session *changing* billing shape: a busy peer
/// can hold the slot indefinitely, and losing that sample loses the only evidence a phase
/// happened at all. The other is a probe whose counter moved: the switch is proven only by
/// observing that movement.
pub fn new_sample(hist: &[Sample], input: &Json, now: i64) -> (r: Option<Sample>)
    ensures
        match r {
            Some(s) => is_due(hist@, input@, now as int) && describes(
                s,
                hist@,
                input@,
                now as int,
            ),
            None => !is_due(hist@, input@, now as int),
        },
{
    let mode = payload_mode(input);
    let api = match mode {
        Mode::Subscription => false,
        Mode::ApiKey => true,
        Mode::Unknown => {
            return None;
        },
    };
    let usd = finite_cost_of(input);
    let sid = payload_session(input);
    let subs = SubSessions::build(hist);
    let slot = saturate(now as i128 - SAMPLE_INTERVAL as i128);

    let mut held = false;
    let mut repeats = false;
    let mut slot_free = false;
    let mut shape_changed = false;
    if let Some(k) = &sid {
        held = api && subs.hold(k.as_str(), usd, now).is_some();
        repeats = match (usd, subs.last_cost(k.as_str())) {
            (Some(u), Some(last)) => u == last,
            _ => false,
        };
        if let Some((at, was_sub)) = subs.last_sample(k.as_str()) {
            slot_free = at <= slot;
            shape_changed = slot_free && was_sub == api;
        }
    }
    assert(held == is_held(hist@, input@, now as int));
    assert(repeats == repeats_counter(hist@, input@));
    assert(slot_free == session_slot_free(hist@, input@, now as int));
    assert(shape_changed == changes_shape(hist@, input@, now as int));
    let exempt = shape_changed || (held && !repeats && slot_free);
    if !exempt && hist.len() > 0 && hist[hist.len() - 1].t > slot {
        return None;
    }
    if held && repeats {
        return None;
    }
    let s = Sample {
        t: now,
        h5: finite_of(window_pct_of(input, "five_hour")),
        d7: finite_of(window_pct_of(input, "seven_day")),
        h5r: finite_of(window_reset_of(input, "five_hour")),
        d7r: finite_of(window_reset_of(input, "seven_day")),
        sid,
        usd,
        tin: tokens_of(input, "total_input_tokens"),
        tout: tokens_of(input, "total_output_tokens"),
        api: api && !held,
        sub: false,
    };
    // Keep the payload's verdict when the window values didn't survive parsing, so a
    // subscription sample is never stored in the shape that means the opposite.
    let sub = !api && !has_window_data(&s);
    Some(Sample { sub, ..s })
}

// ---------------------------------------------------------------------------------------
// Retention
// ---------------------------------------------------------------------------------------

/// Whether a sample is among those reserved against pruning.
pub open spec fn is_reserved(list: Seq<(Seq<char>, i64)>, s: Sample) -> bool {
    sample_key(s) matches Some(k) && list.contains((k, s.t))
}

/// Whether the history holds a sample of API-key spend that its session's windows do not
/// put in doubt.
pub open spec fn has_api(hist: Seq<Sample>) -> bool {
    exists|i: int| 0 <= i < hist.len() && genuine_api(hist, #[trigger] hist[i])
}

pub open spec fn genuine_api(hist: Seq<Sample>, s: Sample) -> bool {
    s.api && !(sample_key(s) matches Some(k) && near_window(windows_in(hist, k), s.t as int))
}

/// The samples after `cutoff`, and the reserved ones.
pub open spec fn keep_recent(
    hist: Seq<Sample>,
    cutoff: int,
    list: Seq<(Seq<char>, i64)>,
) -> Seq<Sample>
    decreases hist.len(),
{
    if hist.len() == 0 {
        Seq::empty()
    } else {
        let before = keep_recent(hist.drop_last(), cutoff, list);
        if hist.last().t > cutoff || is_reserved(list, hist.last()) {
            before.push(hist.last())
        } else {
            before
        }
    }
}

/// The history without the first `n` samples that are not reserved.
pub open spec fn drop_oldest(
    hist: Seq<Sample>,
    n: nat,
    list: Seq<(Seq<char>, i64)>,
) -> Seq<Sample>
    decreases hist.len(),
{
    if hist.len() == 0 || n == 0 {
        hist
    } else if is_reserved(list, hist[0]) {
        seq![hist[0]] + drop_oldest(hist.drop_first(), n, list)
    } else {
        drop_oldest(hist.drop_first(), (n - 1) as nat, list)
    }
}

pub open spec fn entry_cap(hist: Seq<Sample>) -> nat {
    if has_api(hist) {
        MAX_ENTRIES_API as nat
    } else {
        MAX_ENTRIES as nat
    }
}

/// The samples reserved against pruning `hist`.
pub open spec fn anchors_in(hist: Seq<Sample>) -> Seq<(Seq<char>, i64)> {
    anchor_list(window_events(hist), cost_events(hist))
}

/// The history after the age prune, which applies only where genuine API-key spend exists.
pub open spec fn aged(hist: Seq<Sample>, now: int) -> Seq<Sample> {
    if has_api(hist) {
        keep_recent(hist, clamp_i64(now - MAX_AGE_SECS), anchors_in(hist))
    } else {
        hist
    }
}

/// What is kept of a history: the age prune, then the oldest past the cap. Both spare the
/// reserved samples.
pub open spec fn retained(hist: Seq<Sample>, now: int) -> Seq<Sample> {
    let recent = aged(hist, now);
    let cap = entry_cap(hist);
    if recent.len() > cap {
        drop_oldest(recent, (recent.len() - cap) as nat, anchors_in(hist))
    } else {
        recent
    }
}

fn in_list(list: &Vec<(String, i64)>, s: &Sample) -> (r: bool)
    ensures
        r == is_reserved(reserved(list@), *s),
{
    match key_of_sample(s) {
        None => false,
        Some(k) => {
            let ghost all = reserved(list@);
            let mut i: usize = 0;
            while i < list.len()
                invariant
                    i <= list@.len(),
                    all == reserved(list@),
                    sample_key(*s) == Some(k@),
                    forall|j: int| 0 <= j < i ==> #[trigger] all[j] != (k@, s.t),
                decreases list@.len() - i,
            {
                assert(all[i as int] == (list@[i as int].0@, list@[i as int].1));
                if list[i].1 == s.t && list[i].0 == k {
                    assert(all.contains((k@, s.t)));
                    return true;
                }
                i = i + 1;
            }
            false
        },
    }
}

fn any_genuine_api(hist: &Vec<Sample>, subs: &SubSessions) -> (r: bool)
    requires
        subs.wf(),
        subs.window_log() == window_events(hist@),
    ensures
        r == has_api(hist@),
{
    let mut i: usize = 0;
    while i < hist.len()
        invariant
            i <= hist@.len(),
            subs.wf(),
            subs.window_log() == window_events(hist@),
            forall|j: int| 0 <= j < i ==> !genuine_api(hist@, #[trigger] hist@[j]),
        decreases hist@.len() - i,
    {
        let s = &hist[i];
        if s.api {
            let shadowed = match key_of_sample(s) {
                Some(k) => subs.active_at(k.as_str(), s.t),
                None => false,
            };
            if !shadowed {
                assert(genuine_api(hist@, hist@[i as int]));
                return true;
            }
        }
        i = i + 1;
    }
    false
}

fn prune_old(hist: &Vec<Sample>, cutoff: i64, list: &Vec<(String, i64)>) -> (r: Vec<Sample>)
    ensures
        r@ == keep_recent(hist@, cutoff as int, reserved(list@)),
{
    let mut out: Vec<Sample> = Vec::new();
    let mut i: usize = 0;
    assert(hist@.take(0) =~= Seq::<Sample>::empty());
    while i < hist.len()
        invariant
            i <= hist@.len(),
            out@ == keep_recent(hist@.take(i as int), cutoff as int, reserved(list@)),
        decreases hist@.len() - i,
    {
        assert(hist@.take(i + 1).drop_last() =~= hist@.take(i as int));
        if hist[i].t > cutoff || in_list(list, &hist[i]) {
            out.push(copy_sample(&hist[i]));
        }
        i = i + 1;
    }
    assert(hist@.take(i as int) =~= hist@);
    out
}

fn prune_excess(hist: &Vec<Sample>, excess: usize, list: &Vec<(String, i64)>) -> (r: Vec<Sample>)
    ensures
        r@ == drop_oldest(hist@, excess as nat, reserved(list@)),
{
    let mut out: Vec<Sample> = Vec::new();
    let mut left: usize = excess;
    let mut i: usize = 0;
    let ghost all = drop_oldest(hist@, excess as nat, reserved(list@));
    assert(hist@.skip(0) =~= hist@);
    assert(out@ + all =~= all);
    while i < hist.len()
        invariant
            i <= hist@.len(),
            all == out@ + drop_oldest(hist@.skip(i as int), left as nat, reserved(list@)),
        decreases hist@.len() - i,
    {
        let ghost rest = hist@.skip(i as int);
        assert(rest[0] == hist@[i as int]);
        assert(rest.drop_first() =~= hist@.skip(i + 1));
        if left == 0 || in_list(list, &hist[i]) {
            let ghost before = out@;
            out.push(copy_sample(&hist[i]));
            proof {
                let tail = drop_oldest(rest.drop_first(), left as nat, reserved(list@));
                assert(rest =~= seq![rest[0]] + rest.drop_first());
                assert(before + (seq![rest[0]] + tail) =~= before.push(rest[0]) + tail);
            }
        } else {
            left = left - 1;
        }
        i = i + 1;
    }
    assert(hist@.skip(i as int) =~= Seq::<Sample>::empty());
    assert(all =~= out@);
    out
}

/// Prunes a history.
///
/// Mode-aware in both dimensions: subscription-only histories may legitimately span days (an
/// every-other-day user's weekly-window history anchors the report's $/1% estimate), so no
/// age prune applies to them. Once genuine API samples exist, the age prune bounds the larger
/// file to the day window's actual lookback. A flagged sample whose session was reporting
/// windows around the time (a resume transient) does not flip the regime.
pub fn retain(hist: Vec<Sample>, now: i64) -> (r: Vec<Sample>)
    ensures
        r@ == retained(hist@, now as int),
{
    let subs = SubSessions::build(hist.as_slice());
    let api = any_genuine_api(&hist, &subs);
    let anchors = subs.anchors();
    let cap: usize = if api {
        MAX_ENTRIES_API
    } else {
        MAX_ENTRIES
    };
    let recent = if api {
        prune_old(&hist, saturate(now as i128 - MAX_AGE_SECS as i128), &anchors)
    } else {
        hist
    };
    if recent.len() > cap {
        let excess: usize = recent.len() - cap;
        prune_excess(&recent, excess, &anchors)
    } else {
        recent
    }
}

/// Appends one account-usage sample to the history: the history to store, or `None` where the
/// payload adds nothing.
pub fn log_sample(hist: &[Sample], input: &Json, now: i64) -> (r: Option<Vec<Sample>>)
    ensures
        match r {
            None => !is_due(hist@, input@, now as int),
            Some(v) => is_due(hist@, input@, now as int) && exists|s: Sample|
                describes(s, hist@, input@, now as int) && v@ == #[trigger] retained(
                    hist@.push(s),
                    now as int,
                ),
        },
{
    match new_sample(hist, input, now) {
        None => None,
        Some(s) => {
            let ghost added = s;
            let mut all: Vec<Sample> = Vec::new();
            let mut i: usize = 0;
            while i < hist.len()
                invariant
                    i <= hist@.len(),
                    all@ == hist@.take(i as int),
                decreases hist@.len() - i,
            {
                all.push(copy_sample(&hist[i]));
                i = i + 1;
                assert(hist@.take(i as int) =~= hist@.take(i - 1).push(hist@[i - 1]));
            }
            all.push(s);
            assert(all@ =~= hist@.push(added));
            Some(retain(all, now))
        },
    }
}

// ---------------------------------------------------------------------------------------
// Laws of the log
// ---------------------------------------------------------------------------------------

/// What a subscription payload adds is marked as a subscription's, whether or not its windows
/// could be read, and never counts as spend.
pub proof fn a_subscription_payload_is_never_spend(s: Sample, hist: Seq<Sample>, t: Tree, now: int)
    requires
        mode_of(t) == Mode::Subscription,
        describes(s, hist, t, now),
    ensures
        on_subscription(s),
        !s.api,
{
}

proof fn lemma_no_limits(t: Tree, name: Seq<char>)
    requires
        mode_of(t) == Mode::ApiKey,
    ensures
        limit_window(t, name) is None,
{
    reveal_with_fuel(nested_tree, 3);
    let path = seq!["rate_limits"@, name];
    assert(path.drop_first() =~= seq![name]);
    assert(path.drop_first().drop_first() =~= Seq::<Seq<char>>::empty());
}

/// A payload without limits adds a sample without windows, and it counts as spend exactly if
/// its session is not held.
pub proof fn an_api_key_payload_is_spend_unless_held(
    s: Sample,
    hist: Seq<Sample>,
    t: Tree,
    now: int,
)
    requires
        mode_of(t) == Mode::ApiKey,
        describes(s, hist, t, now),
    ensures
        !on_subscription(s),
        s.api <==> !is_held(hist, t, now),
{
    lemma_no_limits(t, "five_hour"@);
    lemma_no_limits(t, "seven_day"@);
}

/// A write that the shared throttle would have refused is one its session made no other of in
/// the last interval.
pub proof fn exempt_writes_are_spaced_per_session(hist: Seq<Sample>, t: Tree, now: int)
    requires
        is_due(hist, t, now),
        throttled(hist, now),
    ensures
        session_slot_free(hist, t, now),
{
}

/// A session whose billing changed shape is logged however busy its peers keep the shared
/// slot, and so is a held session whose counter moved.
pub proof fn evidence_is_never_lost_to_the_throttle(hist: Seq<Sample>, t: Tree, now: int)
    requires
        mode_of(t) != Mode::Unknown,
        session_slot_free(hist, t, now),
        changes_shape(hist, t, now) || is_held(hist, t, now),
        !(is_held(hist, t, now) && repeats_counter(hist, t)),
    ensures
        is_due(hist, t, now),
{
}

proof fn lemma_latest_push(points: Seq<Point>, p: Point)
    requires
        forall|q: Point| #[trigger] points.contains(q) ==> q.0 <= p.0,
    ensures
        latest(points.push(p)) == p,
    decreases points.len(),
{
    assert(points.push(p).drop_last() =~= points);
    if points.len() > 0 {
        lemma_latest_is_listed(points);
    }
}

proof fn lemma_latest_is_listed(points: Seq<Point>)
    requires
        points.len() > 0,
    ensures
        points.contains(latest(points)),
    decreases points.len(),
{
    if points.len() > 1 {
        lemma_latest_is_listed(points.drop_last());
        assert(points =~= points.drop_last().push(points.last()));
        lemma_push_contains(points.drop_last(), points.last(), latest(points));
    } else {
        assert(points[0] == latest(points));
    }
}

/// A held session whose counter stands still is logged once: with its sample appended, the
/// same payload adds nothing, however long the session idles.
pub proof fn a_repeated_counter_is_logged_once(
    hist: Seq<Sample>,
    s: Sample,
    t: Tree,
    now: int,
    later: int,
)
    requires
        mode_of(t) == Mode::ApiKey,
        describes(s, hist, t, now),
        is_held(hist.push(s), t, later),
        payload_key(t) matches Some(k) ==> forall|p: Point| #[trigger]
            costs_in(hist, k).contains(p) ==> p.0 <= now,
    ensures
        !is_due(hist.push(s), t, later),
{
    an_api_key_payload_is_spend_unless_held(s, hist, t, now);
    let k = payload_key(t)->0;
    let u = finite_cost(t)->0;
    session_key_is_stable(text_at(t, seq!["session_id"@]));
    real_cost_is_finite(t);
    assert(hist.push(s).drop_last() =~= hist);
    assert(cost_events(hist.push(s)) == cost_events(hist).push((k, (s.t, u))));
    assert(cost_events(hist.push(s)).drop_last() =~= cost_events(hist));
    assert(costs_in(hist.push(s), k) == costs_in(hist, k).push((s.t, u)));
    lemma_latest_push(costs_in(hist, k), (s.t, u));
}

// ---------------------------------------------------------------------------------------
// Laws of retention
// ---------------------------------------------------------------------------------------

pub(crate) proof fn lemma_keep_recent(hist: Seq<Sample>, cutoff: int, list: Seq<(Seq<char>, i64)>, s: Sample)
    ensures
        keep_recent(hist, cutoff, list).contains(s) <==> hist.contains(s) && (s.t > cutoff
            || is_reserved(list, s)),
        keep_recent(hist, cutoff, list).len() <= hist.len(),
    decreases hist.len(),
{
    if hist.len() > 0 {
        let head = hist.drop_last();
        lemma_keep_recent(head, cutoff, list, s);
        assert(hist =~= head.push(hist.last()));
        lemma_push_contains(head, hist.last(), s);
        lemma_push_contains(keep_recent(head, cutoff, list), hist.last(), s);
    }
}

pub(crate) proof fn lemma_drop_oldest(hist: Seq<Sample>, n: nat, list: Seq<(Seq<char>, i64)>)
    requires
        n <= hist.len(),
    ensures
        forall|s: Sample| #[trigger]
            drop_oldest(hist, n, list).contains(s) ==> hist.contains(s),
        forall|s: Sample|
            hist.contains(s) && is_reserved(list, s) ==> #[trigger] drop_oldest(
                hist,
                n,
                list,
            ).contains(s),
        drop_oldest(hist, n, list).len() == hist.len() - n || forall|i: int|
            0 <= i < drop_oldest(hist, n, list).len() ==> is_reserved(
                list,
                #[trigger] drop_oldest(hist, n, list)[i],
            ),
        drop_oldest(hist, n, list).len() >= hist.len() - n,
    decreases hist.len(),
{
    if hist.len() > 0 && n > 0 {
        let first = hist[0];
        let rest = hist.drop_first();
        let r = drop_oldest(hist, n, list);
        assert(hist =~= seq![first] + rest);
        assert forall|s: Sample| rest.contains(s) implies #[trigger] hist.contains(s) by {
            let i = rest.index_of(s);
            assert(hist[i + 1] == s);
        }
        assert forall|s: Sample| #[trigger] hist.contains(s) implies s == first || rest.contains(
            s,
        ) by {
            let i = hist.index_of(s);
            if i > 0 {
                assert(rest[i - 1] == s);
            }
        }
        if is_reserved(list, first) {
            let m: nat = if n <= rest.len() {
                n
            } else {
                rest.len()
            };
            let tail = drop_oldest(rest, n, list);
            lemma_drop_all(rest, n, list);
            lemma_drop_oldest(rest, m, list);
            assert(tail == drop_oldest(rest, m, list));
            assert forall|s: Sample| #[trigger] r.contains(s) <==> s == first || tail.contains(
                s,
            ) by {
                if r.contains(s) {
                    let i = r.index_of(s);
                    if i > 0 {
                        assert(tail[i - 1] == s);
                    }
                }
                if tail.contains(s) {
                    let i = tail.index_of(s);
                    assert(r[i + 1] == s);
                }
                assert(r[0] == first);
            }
            if n > rest.len() {
                assert(tail.len() == 0 || forall|i: int|
                    0 <= i < tail.len() ==> is_reserved(list, #[trigger] tail[i]));
            }
        } else {
            lemma_drop_oldest(rest, (n - 1) as nat, list);
        }
    }
}

/// Asking for more samples to be dropped than there are drops what can be dropped.
proof fn lemma_drop_all(hist: Seq<Sample>, n: nat, list: Seq<(Seq<char>, i64)>)
    ensures
        n >= hist.len() ==> drop_oldest(hist, n, list) == drop_oldest(hist, hist.len(), list),
    decreases hist.len(),
{
    if n > hist.len() && hist.len() > 0 {
        let rest = hist.drop_first();
        lemma_drop_all(rest, n, list);
        lemma_drop_all(rest, hist.len(), list);
        lemma_drop_all(rest, (n - 1) as nat, list);
    }
}

proof fn lemma_retained(hist: Seq<Sample>, now: int, s: Sample)
    ensures
        retained(hist, now).contains(s) ==> hist.contains(s),
        hist.contains(s) && is_reserved(anchors_in(hist), s) ==> retained(hist, now).contains(s),
{
    let list = anchors_in(hist);
    let recent = aged(hist, now);
    if has_api(hist) {
        lemma_keep_recent(hist, clamp_i64(now - MAX_AGE_SECS), list, s);
    }
    if recent.len() > entry_cap(hist) {
        let n = (recent.len() - entry_cap(hist)) as nat;
        lemma_drop_oldest(recent, n, list);
        assert(drop_oldest(recent, n, list).contains(s) ==> recent.contains(s));
        assert(recent.contains(s) && is_reserved(list, s) ==> drop_oldest(recent, n, list).contains(
            s,
        ));
    }
}

/// Pruning invents nothing and spares every reserved sample.
pub proof fn retention_spares_reserved_samples(hist: Seq<Sample>, now: int)
    ensures
        forall|s: Sample| #[trigger] retained(hist, now).contains(s) ==> hist.contains(s),
        forall|s: Sample|
            hist.contains(s) && is_reserved(anchors_in(hist), s) ==> #[trigger] retained(
                hist,
                now,
            ).contains(s),
{
    assert forall|s: Sample| #[trigger] retained(hist, now).contains(s) implies hist.contains(s) by {
        lemma_retained(hist, now, s);
    }
    assert forall|s: Sample|
        hist.contains(s) && is_reserved(anchors_in(hist), s) implies #[trigger] retained(
        hist,
        now,
    ).contains(s) by {
        lemma_retained(hist, now, s);
    }
}

/// What is kept fits the cap, unless nothing but reserved samples is left.
pub proof fn retention_is_bounded(hist: Seq<Sample>, now: int)
    ensures
        retained(hist, now).len() <= entry_cap(hist) || forall|i: int|
            0 <= i < retained(hist, now).len() ==> is_reserved(
                anchors_in(hist),
                #[trigger] retained(hist, now)[i],
            ),
{
    let recent = aged(hist, now);
    if recent.len() > entry_cap(hist) {
        lemma_drop_oldest(recent, (recent.len() - entry_cap(hist)) as nat, anchors_in(hist));
    }
}

/// A history without API-key spend is never pruned by age: within its cap it is kept whole.
pub proof fn a_subscription_history_does_not_age(hist: Seq<Sample>, now: int)
    requires
        !has_api(hist),
        hist.len() <= MAX_ENTRIES,
    ensures
        retained(hist, now) == hist,
{
}

/// With API-key spend in it, nothing that is kept is older than the cutoff but for the
/// reserved samples.
pub proof fn an_api_history_ages(hist: Seq<Sample>, now: int, s: Sample)
    requires
        has_api(hist),
        retained(hist, now).contains(s),
    ensures
        s.t > clamp_i64(now - MAX_AGE_SECS) || is_reserved(anchors_in(hist), s),
{
    let list = anchors_in(hist);
    let cutoff = clamp_i64(now - MAX_AGE_SECS);
    let recent = aged(hist, now);
    lemma_keep_recent(hist, cutoff, list, s);
    if recent.len() > entry_cap(hist) {
        let n = (recent.len() - entry_cap(hist)) as nat;
        lemma_drop_oldest(recent, n, list);
        assert(drop_oldest(recent, n, list).contains(s) ==> recent.contains(s));
    }
}

proof fn lemma_quiet_upto(windows: Seq<Event>, costs: Seq<Event>, n: nat, q: Quiet)
    requires
        quiet_upto(windows, costs, n).contains(q),
    ensures
        quiet_of(points_of(windows, q.key), points_of(costs, q.key), q.key) == Some(q),
    decreases n,
{
    if n > 0 {
        let before = quiet_upto(windows, costs, (n - 1) as nat);
        let key = keys_in(windows)[n - 1];
        match quiet_of(points_of(windows, key), points_of(costs, key), key) {
            Some(x) => {
                lemma_push_contains(before, x, q);
                if before.contains(q) {
                    lemma_quiet_upto(windows, costs, (n - 1) as nat, q);
                }
            },
            None => {
                lemma_quiet_upto(windows, costs, (n - 1) as nat, q);
            },
        }
    }
}

/// Retention does not decide classification: each of the most recently active quiet sessions
/// is, after a prune, still quiet since the same window and still shows the same last cost
/// sample, so what its hold rests on survives every prune alike.
pub proof fn retention_keeps_the_evidence_of_a_hold(hist: Seq<Sample>, now: int, i: int)
    requires
        0 <= i < ranked(quiet_sessions(window_events(hist), cost_events(hist))).len(),
        i < MAX_ANCHOR_SESSIONS,
    ensures
        ({
            let q = ranked(quiet_sessions(window_events(hist), cost_events(hist)))[i];
            let kept = retained(hist, now);
            &&& quiet_of(windows_in(kept, q.key), costs_in(kept, q.key), q.key) == Some(q)
            &&& last_time(windows_in(kept, q.key)) == last_time(windows_in(hist, q.key))
            &&& windows_in(kept, q.key).len() > 0
        }),
{
    let windows = window_events(hist);
    let costs = cost_events(hist);
    let quiet = quiet_sessions(windows, costs);
    let q = ranked(quiet)[i];
    let kept = retained(hist, now);
    let k = q.key;
    quiet_sessions_are_ranked_by_recency(quiet);
    assert(ranked(quiet).contains(q));
    lemma_quiet_upto(windows, costs, keys_in(windows).len(), q);
    the_most_recent_quiet_sessions_are_reserved(windows, costs, i);

    let ws = windows_in(hist, k);
    let cs = costs_in(hist, k);
    let late = later_than(cs, q.window as int);
    lemma_last_time(ws);
    lemma_last_time(late);

    // The sample of the last window is reserved, hence kept, and none later was added.
    let w = choose|j: int| 0 <= j < ws.len() && (#[trigger] ws[j]).0 == last_time(ws);
    assert(ws.contains(ws[w]));
    lemma_session_points(hist, k, ws[w]);
    let ws_sample = choose|s: Sample| #[trigger]
        hist.contains(s) && sample_key(s) == Some(k) && on_subscription(s) && s.t == ws[w].0;
    lemma_retained(hist, now, ws_sample);
    lemma_session_points(kept, k, ws[w]);
    let kw = windows_in(kept, k);
    assert(kw.contains(ws[w]));
    assert forall|p: Point| #[trigger] kw.contains(p) implies p.0 <= ws[w].0 by {
        lemma_session_points(kept, k, p);
        let s = choose|s: Sample| #[trigger]
            kept.contains(s) && sample_key(s) == Some(k) && on_subscription(s) && s.t == p.0;
        lemma_retained(hist, now, s);
        lemma_session_points(hist, k, p);
        let j = ws.index_of(p);
        assert(ws[j].0 <= last_time(ws));
    }
    lemma_is_last_time(kw, ws[w]);

    // So is the last cost sample after it.
    let c = choose|j: int| 0 <= j < late.len() && (#[trigger] late[j]).0 == last_time(late);
    assert(late.contains(late[c]));
    lemma_later_contains(cs, q.window as int, late[c]);
    lemma_session_points(hist, k, late[c]);
    let cs_sample = choose|s: Sample| #[trigger]
        hist.contains(s) && sample_key(s) == Some(k) && !on_subscription(s) && s.t == late[c].0
            && s.usd == Some(late[c].1);
    lemma_retained(hist, now, cs_sample);
    lemma_session_points(kept, k, late[c]);
    let kc = costs_in(kept, k);
    let kept_late = later_than(kc, q.window as int);
    lemma_later_contains(kc, q.window as int, late[c]);
    assert(kept_late.contains(late[c]));
    assert forall|p: Point| #[trigger] kept_late.contains(p) implies p.0 <= late[c].0 by {
        lemma_later_contains(kc, q.window as int, p);
        lemma_session_points(kept, k, p);
        let s = choose|s: Sample| #[trigger]
            kept.contains(s) && sample_key(s) == Some(k) && !on_subscription(s) && s.t == p.0
                && s.usd == Some(p.1);
        lemma_retained(hist, now, s);
        lemma_session_points(hist, k, p);
        lemma_later_contains(cs, q.window as int, p);
        let j = late.index_of(p);
        assert(late[j].0 <= last_time(late));
    }
    lemma_is_last_time(kept_late, late[c]);
}

/// A hold survives every prune: each of the most recently active quiet sessions that is held is
/// held after it, for as long, whatever counter its next payload shows.
pub proof fn a_hold_survives_pruning(
    hist: Seq<Sample>,
    now: int,
    i: int,
    usd: Option<i64>,
    later: int,
)
    requires
        0 <= i < ranked(quiet_sessions(window_events(hist), cost_events(hist))).len(),
        i < MAX_ANCHOR_SESSIONS,
        ({
            let k = ranked(quiet_sessions(window_events(hist), cost_events(hist)))[i].key;
            &&& hold_of(windows_in(hist, k), costs_in(hist, k), usd, later) is Some
            &&& never_falls(costs_in(hist, k))
        }),
    ensures
        ({
            let k = ranked(quiet_sessions(window_events(hist), cost_events(hist)))[i].key;
            let kept = retained(hist, now);
            hold_of(windows_in(kept, k), costs_in(kept, k), usd, later) == hold_of(
                windows_in(hist, k),
                costs_in(hist, k),
                usd,
                later,
            )
        }),
{
    let k = ranked(quiet_sessions(window_events(hist), cost_events(hist)))[i].key;
    let kept = retained(hist, now);
    retention_keeps_the_evidence_of_a_hold(hist, now, i);
    assert forall|p: Point| #[trigger] costs_in(kept, k).contains(p) implies costs_in(
        hist,
        k,
    ).contains(p) by {
        lemma_session_points(kept, k, p);
        lemma_session_points(hist, k, p);
        let s = choose|s: Sample| #[trigger]
            kept.contains(s) && sample_key(s) == Some(k) && !on_subscription(s) && s.t == p.0
                && s.usd == Some(p.1);
        lemma_retained(hist, now, s);
        assert(hist.contains(s));
    }
    fewer_samples_never_release(
        windows_in(hist, k),
        costs_in(hist, k),
        windows_in(kept, k),
        costs_in(kept, k),
        usd,
        later,
    );
}

} // verus!
