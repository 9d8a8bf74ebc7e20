//! The usage-history log, shared with the report and the inline burn-rate readout.
//!
//! Best-effort, throttled (~1/min) and pruned. The throttle is deliberately global (keyed on
//! the last entry regardless of session): concurrent sessions share the 1/min slot, which
//! bounds write volume; the day-spend aggregate tolerates the resulting per-session gaps
//! because its unknown-baseline path undercounts rather than guesses.

use vstd::prelude::*;

use crate::num::{clamp_i64, saturate, Micros};
use crate::series::{
    keys_in, lemma_points_are_events, lemma_push_contains, points_of, BySession, Event, Point,
};
use crate::text::{
    chars_of, comes_before, is_before, lemma_dictionary_order_is_total,
    lemma_dictionary_order_is_transitive, text_of,
};

verus! {

/// Seconds; the least gap between logged samples (global).
pub const SAMPLE_INTERVAL: i64 = 60;

/// Subscription-only histories keep this cap (~4h at the 1/min throttle — well past the 2h
/// burn-rate windows).
pub const MAX_ENTRIES: usize = 250;

/// Once API-key samples exist the cap grows so the "spent today" aggregate can see a full
/// local day.
pub const MAX_ENTRIES_API: usize = 1500;

/// Samples older than any consumer's lookback are dropped.
pub const MAX_AGE_SECS: i64 = 93_600;

/// The trailing window for the inline burn rate, in seconds.
pub const RATE_WINDOW_SECS: i64 = 7_200;

/// How long cost must be seen moving with no window data before a session that reported
/// windows is reclassified, and the margin either side of a windowed sample within which a
/// cost sample is treated as that session's shadow estimate. Generous on purpose: the cost
/// of waiting is a delayed mode switch, the cost of switching early is presenting a
/// subscriber's shadow cost as real spend.
pub const SUB_HOLD_SECS: i64 = 2_700;

/// How many quiet sessions may reserve samples against pruning at once (two each: the
/// window sample a hold rests on and the cost sample that marks the session quiet).
pub const MAX_ANCHOR_SESSIONS: usize = 16;

/// One logged observation of the account and of the session that rendered it. Amounts are in
/// millionths: percentages, reset epochs (seconds) and dollars.
#[derive(Clone, Debug)]
pub struct Sample {
    pub t: i64,
    pub h5: Option<Micros>,
    pub d7: Option<Micros>,
    pub h5r: Option<Micros>,
    pub d7r: Option<Micros>,
    pub sid: Option<String>,
    pub usd: Option<Micros>,
    pub tin: Option<i64>,
    pub tout: Option<i64>,
    /// API-key (pay-as-you-go) sample: `usd` is actual pay-as-you-go cost, and there are no
    /// window percentages.
    pub api: bool,
    /// The payload carried a `rate_limits` object but no window value could be read from
    /// it. Without it such a sample would be identical to a hold probe, and the two mean
    /// opposite things.
    pub sub: bool,
}

impl Default for Sample {
    fn default() -> (s: Self)
        ensures
            s.t == 0 && s.h5 is None && s.d7 is None && s.h5r is None && s.d7r is None && s.sid
                is None && s.usd is None && s.tin is None && s.tout is None && !s.api && !s.sub,
    {
        Sample {
            t: 0,
            h5: None,
            d7: None,
            h5r: None,
            d7r: None,
            sid: None,
            usd: None,
            tin: None,
            tout: None,
            api: false,
            sub: false,
        }
    }
}

/// The same sample again.
pub fn copy_sample(s: &Sample) -> (r: Sample)
    ensures
        r == *s,
{
    Sample {
        t: s.t,
        h5: s.h5,
        d7: s.d7,
        h5r: s.h5r,
        d7r: s.d7r,
        sid: match &s.sid {
            Some(k) => Some(k.clone()),
            None => None,
        },
        usd: s.usd,
        tin: s.tin,
        tout: s.tout,
        api: s.api,
        sub: s.sub,
    }
}

pub open spec fn windowed(s: Sample) -> bool {
    s.h5 is Some || s.d7 is Some || s.h5r is Some || s.d7r is Some
}

pub open spec fn on_subscription(s: Sample) -> bool {
    windowed(s) || s.sub
}

/// Whether a sample is known to have come from a subscription payload — window values read
/// off it, or [`Sample::sub`] recording that its `rate_limits` object didn't parse.
pub fn is_sub_sample(s: &Sample) -> (r: bool)
    ensures
        r == on_subscription(*s),
{
    has_window_data(s) || s.sub
}

/// Whether a sample records API-key spend: the explicit flag only. A *subscription* sample
/// whose windows didn't parse has the shape of a sample without the flag, and counting its
/// shadow cost as spend fabricates dollars — the one direction the day figure must never
/// err.
pub fn is_api_sample(s: &Sample) -> (r: bool)
    ensures
        r == s.api,
{
    s.api
}

/// Whether a sample carries any trace of a subscription window — the mark of a payload
/// that the coding assistant served under Pro/Max auth.
pub fn has_window_data(s: &Sample) -> (r: bool)
    ensures
        r == windowed(*s),
{
    s.h5.is_some() || s.d7.is_some() || s.h5r.is_some() || s.d7r.is_some()
}

/// A sample with cost that cannot be shown to have come from a subscription. Not proof of
/// API-key spend (see [`is_api_sample`]) — but exactly the right boundary where *exclusion*
/// is the safe direction: such a sample's dollars may be API spend, so they must not feed
/// subscription-percentage maths (the report's $/1% anchor).
pub fn lacks_window_data(s: &Sample) -> (r: bool)
    ensures
        r == (s.usd is Some && !on_subscription(*s)),
{
    s.usd.is_some() && !is_sub_sample(s)
}

/// The first twelve characters of a session id; `None` when there are none.
pub open spec fn key_of(sid: Option<Seq<char>>) -> Option<Seq<char>> {
    match sid {
        None => None,
        Some(s) => if s.len() == 0 {
            None
        } else if s.len() <= 12 {
            Some(s)
        } else {
            Some(s.take(12))
        },
    }
}

pub open spec fn sid_text(sid: Option<String>) -> Option<Seq<char>> {
    match sid {
        Some(s) => Some(s@),
        None => None,
    }
}

/// The session a sample belongs to.
pub open spec fn sample_key(s: Sample) -> Option<Seq<char>> {
    key_of(sid_text(s.sid))
}

pub open spec fn opt_text(s: Option<&str>) -> Option<Seq<char>> {
    match s {
        Some(x) => Some(x@),
        None => None,
    }
}

/// The session key as stored on disk: `session_id` truncated to 12 chars, `None` when the
/// payload carried none. Shared with the day-spend aggregation so live payloads and stored
/// samples always normalise identically.
pub fn session_key(sid: Option<&str>) -> (r: Option<String>)
    ensures
        sid_text(r) == key_of(opt_text(sid)),
{
    match sid {
        None => None,
        Some(s) => {
            let all = chars_of(s);
            if all.len() == 0 {
                None
            } else if all.len() <= 12 {
                Some(s.to_owned())
            } else {
                let head = vstd::slice::slice_subrange(all.as_slice(), 0, 12);
                assert(head@ =~= s@.take(12));
                Some(text_of(head))
            }
        },
    }
}

/// The session a sample belongs to.
pub fn key_of_sample(s: &Sample) -> (r: Option<String>)
    ensures
        sid_text(r) == sample_key(*s),
{
    match &s.sid {
        Some(x) => session_key(Some(x.as_str())),
        None => None,
    }
}

/// Normalising a session id twice is normalising it once, so a stored key is its own key.
pub proof fn session_key_is_stable(sid: Option<Seq<char>>)
    ensures
        key_of(key_of(sid)) == key_of(sid),
        key_of(sid) matches Some(k) ==> 0 < k.len() <= 12,
{
}

// ---------------------------------------------------------------------------------------
// What each session showed
// ---------------------------------------------------------------------------------------

/// The samples that carried subscription data, as `(session, (time, 0))`.
pub open spec fn window_events(hist: Seq<Sample>) -> Seq<Event>
    decreases hist.len(),
{
    if hist.len() == 0 {
        Seq::empty()
    } else {
        let before = window_events(hist.drop_last());
        let s = hist.last();
        match sample_key(s) {
            Some(k) if on_subscription(s) => before.push((k, (s.t, 0i64))),
            _ => before,
        }
    }
}

/// The window-less cost samples, as `(session, (time, counter))`.
pub open spec fn cost_events(hist: Seq<Sample>) -> Seq<Event>
    decreases hist.len(),
{
    if hist.len() == 0 {
        Seq::empty()
    } else {
        let before = cost_events(hist.drop_last());
        let s = hist.last();
        match (sample_key(s), s.usd) {
            (Some(k), Some(u)) if !on_subscription(s) => before.push((k, (s.t, u))),
            _ => before,
        }
    }
}

/// When the session `key` reported subscription data.
pub open spec fn windows_in(hist: Seq<Sample>, key: Seq<char>) -> Seq<Point> {
    points_of(window_events(hist), key)
}

/// The cost counter of the session `key` where it reported no subscription data.
pub open spec fn costs_in(hist: Seq<Sample>, key: Seq<char>) -> Seq<Point> {
    points_of(cost_events(hist), key)
}

/// Whether a moment of `windows` lies within the hold of `t`, on either side.
pub open spec fn near_window(windows: Seq<Point>, t: int) -> bool {
    exists|i: int|
        0 <= i < windows.len() && -SUB_HOLD_SECS <= (#[trigger] windows[i]).0 - t <= SUB_HOLD_SECS
}

/// Whether a moment of `windows` lies strictly between `a` and `b`.
pub open spec fn window_between(windows: Seq<Point>, a: int, b: int) -> bool {
    exists|i: int| 0 <= i < windows.len() && a < (#[trigger] windows[i]).0 < b
}

/// The last moment of a series that is not empty.
pub open spec fn last_time(points: Seq<Point>) -> i64
    decreases points.len(),
{
    if points.len() <= 1 {
        points[0].0
    } else if points.last().0 > last_time(points.drop_last()) {
        points.last().0
    } else {
        last_time(points.drop_last())
    }
}

/// The points later than `t`.
pub open spec fn later_than(points: Seq<Point>, t: int) -> Seq<Point>
    decreases points.len(),
{
    if points.len() == 0 {
        Seq::empty()
    } else {
        let before = later_than(points.drop_last(), t);
        if points.last().0 > t {
            before.push(points.last())
        } else {
            before
        }
    }
}

/// The points at or before `t`.
pub open spec fn not_after(points: Seq<Point>, t: int) -> Seq<Point>
    decreases points.len(),
{
    if points.len() == 0 {
        Seq::empty()
    } else {
        let before = not_after(points.drop_last(), t);
        if points.last().0 <= t {
            before.push(points.last())
        } else {
            before
        }
    }
}

/// The points whose value is above `v`.
pub open spec fn higher_than(points: Seq<Point>, v: int) -> Seq<Point>
    decreases points.len(),
{
    if points.len() == 0 {
        Seq::empty()
    } else {
        let before = higher_than(points.drop_last(), v);
        if points.last().1 > v {
            before.push(points.last())
        } else {
            before
        }
    }
}

/// The earliest point of a series that is not empty; the first listed of equals.
pub open spec fn earliest(points: Seq<Point>) -> Point
    decreases points.len(),
{
    if points.len() <= 1 {
        points[0]
    } else if points.last().0 < earliest(points.drop_last()).0 {
        points.last()
    } else {
        earliest(points.drop_last())
    }
}

/// The latest point of a series that is not empty; the last listed of equals.
pub open spec fn latest(points: Seq<Point>) -> Point
    decreases points.len(),
{
    if points.len() <= 1 {
        points[0]
    } else if points.last().0 >= latest(points.drop_last()).0 {
        points.last()
    } else {
        latest(points.drop_last())
    }
}

/// Whether a session that stopped reporting windows has proven that its billing changed: its
/// counter was first seen above the value it was restored at no later than the hold ago, and
/// the payload's counter has climbed past that first movement.
pub open spec fn switch_proven(
    windows: Seq<Point>,
    costs: Seq<Point>,
    usd: Option<i64>,
    now: int,
) -> bool {
    let since = later_than(costs, last_time(windows) as int);
    let moved = higher_than(since, earliest(since).1 as int);
    &&& since.len() > 0
    &&& moved.len() > 0
    &&& now - earliest(moved).0 >= SUB_HOLD_SECS
    &&& usd matches Some(u)
    &&& u > earliest(moved).1
}

/// How long the windows of a held session have been missing; `None` for one that never
/// reported any, or that has proven the switch.
pub open spec fn hold_of(
    windows: Seq<Point>,
    costs: Seq<Point>,
    usd: Option<i64>,
    now: int,
) -> Option<i64> {
    if windows.len() == 0 || switch_proven(windows, costs, usd, now) {
        None
    } else {
        Some(clamp_i64(now - last_time(windows)) as i64)
    }
}

/// `(time, was_subscription)` for a session's most recent sample.
pub open spec fn last_shape(windows: Seq<Point>, costs: Seq<Point>) -> Option<(i64, bool)> {
    if windows.len() > 0 && (costs.len() == 0 || last_time(windows) >= last_time(costs)) {
        Some((last_time(windows), true))
    } else if costs.len() > 0 {
        Some((last_time(costs), false))
    } else {
        None
    }
}

fn max_time(points: &Vec<Point>) -> (t: i64)
    requires
        points@.len() > 0,
    ensures
        t == last_time(points@),
{
    let mut best: i64 = points[0].0;
    let mut i: usize = 1;
    assert(points@.take(1)[0] == points@[0]);
    while i < points.len()
        invariant
            1 <= i <= points@.len(),
            best == last_time(points@.take(i as int)),
        decreases points@.len() - i,
    {
        assert(points@.take(i + 1).drop_last() =~= points@.take(i as int));
        if points[i].0 > best {
            best = points[i].0;
        }
        i = i + 1;
    }
    assert(points@.take(i as int) =~= points@);
    best
}

/// Per-session view of *when* a session looked like a subscription — the input to every
/// decision that must not mistake shadow cost for spend.
///
/// Resuming a session with `--resume` restores its *cost* immediately but repopulates
/// `rate_limits` only from the first fresh API response, so a resumed Pro/Max session briefly
/// looks API-key-shaped. The same session id can also change billing for
/// real: `--resume` reuses the id, and the resumed process inherits whatever auth its shell
/// provides. Classification is therefore a question about a *moment*, never a flat set of
/// session ids.
pub struct SubSessions {
    windows: BySession,
    costs: BySession,
}

impl SubSessions {
    pub closed spec fn wf(&self) -> bool {
        self.windows.wf() && self.costs.wf()
    }

    /// Every sample that carried subscription data, in order.
    pub closed spec fn window_log(&self) -> Seq<Event> {
        self.windows@
    }

    /// Every window-less cost sample, in order.
    pub closed spec fn cost_log(&self) -> Seq<Event> {
        self.costs@
    }

    pub open spec fn windows_of(&self, key: Seq<char>) -> Seq<Point> {
        points_of(self.window_log(), key)
    }

    pub open spec fn costs_of(&self, key: Seq<char>) -> Seq<Point> {
        points_of(self.cost_log(), key)
    }

    pub fn build(hist: &[Sample]) -> (r: Self)
        ensures
            r.wf(),
            r.window_log() == window_events(hist@),
            r.cost_log() == cost_events(hist@),
    {
        let mut windows = BySession::new();
        let mut costs = BySession::new();
        let mut i: usize = 0;
        assert(hist@.take(0) =~= Seq::<Sample>::empty());
        while i < hist.len()
            invariant
                i <= hist@.len(),
                windows.wf(),
                costs.wf(),
                windows@ == window_events(hist@.take(i as int)),
                costs@ == cost_events(hist@.take(i as int)),
            decreases hist@.len() - i,
        {
            let s = &hist[i];
            assert(hist@.take(i + 1).drop_last() =~= hist@.take(i as int));
            assert(hist@.take(i + 1).last() == *s);
            if let Some(k) = key_of_sample(s) {
                if is_sub_sample(s) {
                    windows.add(k.as_str(), s.t, 0);
                } else if let Some(u) = s.usd {
                    costs.add(k.as_str(), s.t, u);
                }
            }
            i = i + 1;
        }
        assert(hist@.take(i as int) =~= hist@);
        SubSessions { windows, costs }
    }

    /// Whether this session was on a subscription around `t`: it reported window data
    /// within ±[`SUB_HOLD_SECS`]. Symmetric because a resume transient logs its restored
    /// cost *before* the windows repopulate, so the corroborating sample can land on either
    /// side of the sample being judged.
    pub fn active_at(&self, key: &str, t: i64) -> (r: bool)
        requires
            self.wf(),
        ensures
            r == near_window(self.windows_of(key@), t as int),
    {
        match self.windows.points(key) {
            None => false,
            Some(points) => {
                let mut i: usize = 0;
                while i < points.len()
                    invariant
                        i <= points@.len(),
                        points@ == self.windows_of(key@),
                        forall|j: int|
                            0 <= j < i ==> !(-SUB_HOLD_SECS <= (#[trigger] points@[j]).0 - t
                                <= SUB_HOLD_SECS),
                    decreases points@.len() - i,
                {
                    let d: i128 = points[i].0 as i128 - t as i128;
                    if -(SUB_HOLD_SECS as i128) <= d && d <= SUB_HOLD_SECS as i128 {
                        assert(-SUB_HOLD_SECS <= points@[i as int].0 - t <= SUB_HOLD_SECS);
                        return true;
                    }
                    i = i + 1;
                }
                false
            },
        }
    }

    /// Whether a cost-carrying payload with no `rate_limits` must still be treated as a
    /// subscription session, and if so how long its windows have been missing (for the
    /// status line's message). `None` means the session may be treated as API-key billing:
    /// either it never reported windows at all, or the switch is now proven.
    ///
    /// Proof is the session's own cost counter moving while no windows were reported. That
    /// is what separates the two ways a payload arrives in this shape: a resumed
    /// subscription session awaiting its first response has a *frozen* counter (no
    /// response, no cost), however long it idles, while a session billing to an API key
    /// spends continuously and is receiving responses that carry no windows at all.
    ///
    /// That movement must also have been going on for [`SUB_HOLD_SECS`], timed from the
    /// first observation *above* the restored counter, and the counter must have gone on
    /// climbing past that first bump.
    pub fn hold(&self, key: &str, usd: Option<Micros>, now: i64) -> (r: Option<i64>)
        requires
            self.wf(),
        ensures
            r == hold_of(self.windows_of(key@), self.costs_of(key@), usd, now as int),
    {
        let windows = match self.windows.points(key) {
            None => {
                return None;
            },
            Some(w) => w,
        };
        let last_window = max_time(windows);
        let quiet = saturate(now as i128 - last_window as i128);
        let costs = match self.costs.points(key) {
            None => {
                return Some(quiet);
            },
            Some(c) => c,
        };
        // The counter as restored — the first window-less observation, not the last
        // windowed sample's value: a session usually goes on spending after its last logged
        // sample, so a resumed counter sits legitimately above the last one recorded with
        // windows.
        let restored = match first_after(costs, last_window) {
            None => {
                return Some(quiet);
            },
            Some(p) => p.1,
        };
        match first_above(costs, last_window, restored) {
            None => Some(quiet),
            Some((moved_at, first_move)) => {
                let climbing = match usd {
                    Some(u) => u > first_move,
                    None => false,
                };
                if now as i128 - moved_at as i128 >= SUB_HOLD_SECS as i128 && climbing {
                    None
                } else {
                    Some(quiet)
                }
            },
        }
    }

    /// The counter on this session's most recent window-less cost sample, if it has one.
    pub fn last_cost(&self, key: &str) -> (r: Option<Micros>)
        requires
            self.wf(),
        ensures
            r == newest_counter(self.costs_of(key@)),
    {
        match self.costs.points(key) {
            None => None,
            Some(points) => {
                let mut best: Point = points[0];
                let mut i: usize = 1;
                assert(points@.take(1)[0] == points@[0]);
                while i < points.len()
                    invariant
                        1 <= i <= points@.len(),
                        best == latest(points@.take(i as int)),
                    decreases points@.len() - i,
                {
                    assert(points@.take(i + 1).drop_last() =~= points@.take(i as int));
                    if points[i].0 >= best.0 {
                        best = points[i];
                    }
                    i = i + 1;
                }
                assert(points@.take(i as int) =~= points@);
                Some(best.1)
            },
        }
    }

    /// Whether this session reported window data at any moment strictly between `a` and
    /// `b` — i.e. whether its cumulative cost counter passed through a subscription phase
    /// between two observations. Spend cannot be attributed across such a gap: the counter
    /// climbs there on the shadow estimate a subscription reports, not on money.
    pub fn windowed_between(&self, key: &str, a: i64, b: i64) -> (r: bool)
        requires
            self.wf(),
        ensures
            r == window_between(self.windows_of(key@), a as int, b as int),
    {
        match self.windows.points(key) {
            None => false,
            Some(points) => {
                let mut i: usize = 0;
                while i < points.len()
                    invariant
                        i <= points@.len(),
                        points@ == self.windows_of(key@),
                        forall|j: int| 0 <= j < i ==> !(a < (#[trigger] points@[j]).0 < b),
                    decreases points@.len() - i,
                {
                    if a < points[i].0 && points[i].0 < b {
                        assert(a < points@[i as int].0 < b);
                        return true;
                    }
                    i = i + 1;
                }
                false
            },
        }
    }

    /// The most recent moment this session reported window data at or before `t`.
    pub fn last_window_at(&self, key: &str, t: i64) -> (r: Option<i64>)
        requires
            self.wf(),
        ensures
            r == window_before(self.windows_of(key@), t as int),
    {
        match self.windows.points(key) {
            None => None,
            Some(points) => {
                let mut best: Option<i64> = None;
                let mut i: usize = 0;
                assert(points@.take(0) =~= Seq::<Point>::empty());
                while i < points.len()
                    invariant
                        i <= points@.len(),
                        best == window_before(points@.take(i as int), t as int),
                    decreases points@.len() - i,
                {
                    assert(points@.take(i + 1).drop_last() =~= points@.take(i as int));
                    let w = points[i].0;
                    proof {
                        let kept = not_after(points@.take(i as int), t as int);
                        assert(kept.push(points@[i as int]).drop_last() =~= kept);
                    }
                    if w <= t {
                        best = match best {
                            Some(b) if b >= w => Some(b),
                            _ => Some(w),
                        };
                    }
                    i = i + 1;
                }
                assert(points@.take(i as int) =~= points@);
                best
            },
        }
    }

    /// `(time, was_subscription)` for this session's most recent sample.
    pub fn last_sample(&self, key: &str) -> (r: Option<(i64, bool)>)
        requires
            self.wf(),
        ensures
            r == last_shape(self.windows_of(key@), self.costs_of(key@)),
    {
        match (self.windows.points(key), self.costs.points(key)) {
            (Some(w), Some(c)) => {
                let w = max_time(w);
                let c = max_time(c);
                if w >= c {
                    Some((w, true))
                } else {
                    Some((c, false))
                }
            },
            (Some(w), None) => Some((max_time(w), true)),
            (None, Some(c)) => Some((max_time(c), false)),
            (None, None) => None,
        }
    }

    /// Samples that ordinary retention must not evict, as `(session, time)`: for every
    /// session that has gone quiet, its newest windowed sample — the anchor
    /// [`hold`](Self::hold) reasons from — *and* the newest window-less one after it.
    ///
    /// Both, because they only work as a pair: the cost sample that makes the session count
    /// as quiet is itself ordinary, so without protection it goes first, and on the next
    /// write the session no longer looks quiet and the anchor is evicted normally.
    ///
    /// Bounded to the [`MAX_ANCHOR_SESSIONS`] most recently active quiet sessions. Sessions
    /// end while quiet all the time, so protecting every one forever would let the reserved
    /// set grow past the retention cap itself and the file with it.
    pub fn anchors(&self) -> (r: Vec<(String, i64)>)
        requires
            self.wf(),
        ensures
            reserved(r@) == anchor_list(self.window_log(), self.cost_log()),
    {
        let mut quiet: Vec<QuietSession> = Vec::new();
        let mut j: usize = 0;
        assert(quiet_views(quiet@) =~= ranked(quiet_upto(self.window_log(), self.cost_log(), 0)));
        while j < self.windows.len()
            invariant
                j <= keys_in(self.window_log()).len(),
                self.wf(),
                quiet_views(quiet@) == ranked(
                    quiet_upto(self.window_log(), self.cost_log(), j as nat),
                ),
            decreases keys_in(self.window_log()).len() - j,
        {
            let series = self.windows.series(j);
            let ghost key = series.key@;
            let ghost before = quiet_upto(self.window_log(), self.cost_log(), j as nat);
            let window = max_time(&series.points);
            if let Some(costs) = self.costs.points(series.key.as_str()) {
                if let Some(cost) = last_after(costs, window) {
                    let q = QuietSession { key: series.key.clone(), window, cost };
                    assert(before.push(q@).drop_last() =~= before);
                    insert_quiet(&mut quiet, q);
                }
            }
            j = j + 1;
        }
        let mut out: Vec<(String, i64)> = Vec::new();
        let ghost order = quiet_views(quiet@);
        let mut i: usize = 0;
        assert(reserved(out@) =~= reserve(order, 0));
        while i < quiet.len() && i < MAX_ANCHOR_SESSIONS
            invariant
                i <= quiet@.len(),
                i <= MAX_ANCHOR_SESSIONS,
                order == quiet_views(quiet@),
                reserved(out@) == reserve(order, i as nat),
            decreases quiet@.len() - i,
        {
            out.push((quiet[i].key.clone(), quiet[i].window));
            out.push((quiet[i].key.clone(), quiet[i].cost));
            i = i + 1;
            assert(reserved(out@) =~= reserve(order, i as nat));
        }
        out
    }
}

/// A session that stopped reporting windows: the moment of its last window sample, and of
/// the last cost sample after it.
pub struct Quiet {
    pub key: Seq<char>,
    pub window: i64,
    pub cost: i64,
}

pub open spec fn quiet_of(windows: Seq<Point>, costs: Seq<Point>, key: Seq<char>) -> Option<Quiet> {
    let late = later_than(costs, last_time(windows) as int);
    if windows.len() > 0 && late.len() > 0 {
        Some(Quiet { key, window: last_time(windows), cost: last_time(late) })
    } else {
        None
    }
}

/// The quiet ones among the first `n` sessions that reported windows.
pub open spec fn quiet_upto(windows: Seq<Event>, costs: Seq<Event>, n: nat) -> Seq<Quiet>
    decreases n,
{
    if n == 0 {
        Seq::empty()
    } else {
        let before = quiet_upto(windows, costs, (n - 1) as nat);
        let key = keys_in(windows)[n - 1];
        match quiet_of(points_of(windows, key), points_of(costs, key), key) {
            Some(q) => before.push(q),
            None => before,
        }
    }
}

/// Every quiet session.
pub open spec fn quiet_sessions(windows: Seq<Event>, costs: Seq<Event>) -> Seq<Quiet> {
    quiet_upto(windows, costs, keys_in(windows).len())
}

/// More recently active; the earlier key of two that are level.
pub open spec fn more_recent(a: Quiet, b: Quiet) -> bool {
    a.cost > b.cost || (a.cost == b.cost && comes_before(a.key, b.key))
}

pub open spec fn insert_ranked(s: Seq<Quiet>, x: Quiet) -> Seq<Quiet>
    decreases s.len(),
{
    if s.len() > 0 && more_recent(x, s.last()) {
        insert_ranked(s.drop_last(), x).push(s.last())
    } else {
        s.push(x)
    }
}

/// Sorted, the most recently active first.
pub open spec fn ranked(q: Seq<Quiet>) -> Seq<Quiet>
    decreases q.len(),
{
    if q.len() == 0 {
        Seq::empty()
    } else {
        insert_ranked(ranked(q.drop_last()), q.last())
    }
}

/// The two samples of each of the first `n` sessions.
pub open spec fn reserve(order: Seq<Quiet>, n: nat) -> Seq<(Seq<char>, i64)>
    decreases n,
{
    if n == 0 {
        Seq::empty()
    } else {
        let q = order[n - 1];
        reserve(order, (n - 1) as nat).push((q.key, q.window)).push((q.key, q.cost))
    }
}

/// The samples reserved against pruning, as `(session, time)`.
pub open spec fn anchor_list(windows: Seq<Event>, costs: Seq<Event>) -> Seq<(Seq<char>, i64)> {
    let order = ranked(quiet_sessions(windows, costs));
    reserve(
        order,
        if order.len() < MAX_ANCHOR_SESSIONS {
            order.len()
        } else {
            MAX_ANCHOR_SESSIONS as nat
        },
    )
}

pub open spec fn reserved(v: Seq<(String, i64)>) -> Seq<(Seq<char>, i64)> {
    Seq::new(v.len(), |i: int| (v[i].0@, v[i].1))
}

struct QuietSession {
    key: String,
    window: i64,
    cost: i64,
}

impl QuietSession {
    spec fn view(&self) -> Quiet {
        Quiet { key: self.key@, window: self.window, cost: self.cost }
    }
}

spec fn quiet_views(v: Seq<QuietSession>) -> Seq<Quiet> {
    Seq::new(v.len(), |i: int| v[i]@)
}

proof fn lemma_insert_position(s: Seq<Quiet>, x: Quiet, pos: int)
    requires
        0 <= pos <= s.len(),
        forall|i: int| pos <= i < s.len() ==> more_recent(x, #[trigger] s[i]),
        pos > 0 ==> !more_recent(x, s[pos - 1]),
    ensures
        insert_ranked(s, x) == s.insert(pos, x),
    decreases s.len(),
{
    if pos < s.len() {
        lemma_insert_position(s.drop_last(), x, pos);
        assert(s.insert(pos, x) =~= s.drop_last().insert(pos, x).push(s.last()));
    } else {
        assert(s.insert(pos, x) =~= s.push(x));
    }
}

fn insert_quiet(v: &mut Vec<QuietSession>, q: QuietSession)
    ensures
        quiet_views(final(v)@) == insert_ranked(quiet_views(old(v)@), q@),
{
    let ghost order = quiet_views(v@);
    let mut pos: usize = v.len();
    while pos > 0 && (q.cost > v[pos - 1].cost || (q.cost == v[pos - 1].cost && is_before(
        q.key.as_str(),
        v[pos - 1].key.as_str(),
    )))
        invariant
            pos <= v@.len(),
            order == quiet_views(v@),
            forall|i: int| pos <= i < order.len() ==> more_recent(q@, #[trigger] order[i]),
        decreases pos,
    {
        assert(order[pos - 1] == v@[pos - 1]@);
        pos = pos - 1;
    }
    proof {
        if pos > 0 {
            assert(order[pos - 1] == v@[pos - 1]@);
        }
        lemma_insert_position(order, q@, pos as int);
    }
    let ghost before = v@;
    v.insert(pos, q);
    assert(quiet_views(v@) =~= order.insert(pos as int, q@));
}

/// The last moment after `t`.
fn last_after(points: &Vec<Point>, t: i64) -> (r: Option<i64>)
    ensures
        match r {
            Some(x) => later_than(points@, t as int).len() > 0 && x == last_time(
                later_than(points@, t as int),
            ),
            None => later_than(points@, t as int).len() == 0,
        },
{
    let mut best: Option<i64> = None;
    let mut i: usize = 0;
    assert(points@.take(0) =~= Seq::<Point>::empty());
    while i < points.len()
        invariant
            i <= points@.len(),
            match best {
                Some(x) => later_than(points@.take(i as int), t as int).len() > 0 && x
                    == last_time(later_than(points@.take(i as int), t as int)),
                None => later_than(points@.take(i as int), t as int).len() == 0,
            },
        decreases points@.len() - i,
    {
        assert(points@.take(i + 1).drop_last() =~= points@.take(i as int));
        proof {
            let kept = later_than(points@.take(i as int), t as int);
            assert(kept.push(points@[i as int]).drop_last() =~= kept);
        }
        let x = points[i].0;
        if x > t {
            best = match best {
                Some(b) if b >= x => Some(b),
                _ => Some(x),
            };
        }
        i = i + 1;
    }
    assert(points@.take(i as int) =~= points@);
    best
}

/// The counter of the latest point.
pub open spec fn newest_counter(costs: Seq<Point>) -> Option<i64> {
    if costs.len() == 0 {
        None
    } else {
        Some(latest(costs).1)
    }
}

/// The last moment at or before `t`.
pub open spec fn window_before(windows: Seq<Point>, t: int) -> Option<i64> {
    let kept = not_after(windows, t);
    if kept.len() == 0 {
        None
    } else {
        Some(last_time(kept))
    }
}

/// The earliest point later than `t`.
fn first_after(points: &Vec<Point>, t: i64) -> (r: Option<Point>)
    ensures
        match r {
            Some(p) => later_than(points@, t as int).len() > 0 && p == earliest(
                later_than(points@, t as int),
            ),
            None => later_than(points@, t as int).len() == 0,
        },
{
    let mut best: Option<Point> = None;
    let mut i: usize = 0;
    assert(points@.take(0) =~= Seq::<Point>::empty());
    while i < points.len()
        invariant
            i <= points@.len(),
            match best {
                Some(p) => later_than(points@.take(i as int), t as int).len() > 0 && p == earliest(
                    later_than(points@.take(i as int), t as int),
                ),
                None => later_than(points@.take(i as int), t as int).len() == 0,
            },
        decreases points@.len() - i,
    {
        assert(points@.take(i + 1).drop_last() =~= points@.take(i as int));
        proof {
            let kept = later_than(points@.take(i as int), t as int);
            assert(kept.push(points@[i as int]).drop_last() =~= kept);
        }
        if points[i].0 > t {
            best = match best {
                Some(p) if p.0 <= points[i].0 => Some(p),
                _ => Some(points[i]),
            };
        }
        i = i + 1;
    }
    assert(points@.take(i as int) =~= points@);
    best
}

proof fn lemma_higher_push(points: Seq<Point>, p: Point, v: int)
    ensures
        higher_than(points.push(p), v) == if p.1 > v {
            higher_than(points, v).push(p)
        } else {
            higher_than(points, v)
        },
{
    assert(points.push(p).drop_last() =~= points);
}

/// The earliest point later than `t` with a value above `v`.
fn first_above(points: &Vec<Point>, t: i64, v: i64) -> (r: Option<Point>)
    ensures
        match r {
            Some(p) => higher_than(later_than(points@, t as int), v as int).len() > 0 && p
                == earliest(higher_than(later_than(points@, t as int), v as int)),
            None => higher_than(later_than(points@, t as int), v as int).len() == 0,
        },
{
    let mut best: Option<Point> = None;
    let mut i: usize = 0;
    assert(points@.take(0) =~= Seq::<Point>::empty());
    while i < points.len()
        invariant
            i <= points@.len(),
            match best {
                Some(p) => higher_than(
                    later_than(points@.take(i as int), t as int),
                    v as int,
                ).len() > 0 && p == earliest(
                    higher_than(later_than(points@.take(i as int), t as int), v as int),
                ),
                None => higher_than(
                    later_than(points@.take(i as int), t as int),
                    v as int,
                ).len() == 0,
            },
        decreases points@.len() - i,
    {
        assert(points@.take(i + 1).drop_last() =~= points@.take(i as int));
        proof {
            let late = later_than(points@.take(i as int), t as int);
            lemma_higher_push(late, points@[i as int], v as int);
            let kept = higher_than(late, v as int);
            assert(kept.push(points@[i as int]).drop_last() =~= kept);
        }
        if points[i].0 > t && points[i].1 > v {
            best = match best {
                Some(p) if p.0 <= points[i].0 => Some(p),
                _ => Some(points[i]),
            };
        }
        i = i + 1;
    }
    assert(points@.take(i as int) =~= points@);
    best
}

// ---------------------------------------------------------------------------------------
// Laws of the hold
// ---------------------------------------------------------------------------------------

/// The last moment is one that was observed, and none observed is later.
pub proof fn lemma_last_time(points: Seq<Point>)
    requires
        points.len() > 0,
    ensures
        exists|i: int| 0 <= i < points.len() && (#[trigger] points[i]).0 == last_time(points),
        forall|i: int| 0 <= i < points.len() ==> (#[trigger] points[i]).0 <= last_time(points),
    decreases points.len(),
{
    if points.len() > 1 {
        let head = points.drop_last();
        lemma_last_time(head);
        let i = choose|i: int| 0 <= i < head.len() && (#[trigger] head[i]).0 == last_time(head);
        assert(points[i] == head[i]);
        assert(points[points.len() - 1] == points.last());
        assert forall|j: int| 0 <= j < points.len() implies (#[trigger] points[j]).0 <= last_time(
            points,
        ) by {
            if j < head.len() {
                assert(head[j] == points[j]);
            }
        }
    } else {
        assert(points[0].0 == last_time(points));
    }
}

/// A moment that was observed and that none observed exceeds is the last one.
pub proof fn lemma_is_last_time(points: Seq<Point>, p: Point)
    requires
        points.contains(p),
        forall|q: Point| #[trigger] points.contains(q) ==> q.0 <= p.0,
    ensures
        last_time(points) == p.0,
{
    lemma_last_time(points);
    let i = choose|i: int| 0 <= i < points.len() && (#[trigger] points[i]).0 == last_time(points);
    assert(points.contains(points[i]));
}

pub proof fn lemma_later_contains(points: Seq<Point>, t: int, p: Point)
    ensures
        later_than(points, t).contains(p) <==> points.contains(p) && p.0 > t,
    decreases points.len(),
{
    if points.len() > 0 {
        lemma_later_contains(points.drop_last(), t, p);
        assert(points =~= points.drop_last().push(points.last()));
        lemma_push_contains(points.drop_last(), points.last(), p);
        lemma_push_contains(later_than(points.drop_last(), t), points.last(), p);
    }
}

proof fn lemma_higher_contains(points: Seq<Point>, v: int, p: Point)
    ensures
        higher_than(points, v).contains(p) <==> points.contains(p) && p.1 > v,
    decreases points.len(),
{
    if points.len() > 0 {
        lemma_higher_contains(points.drop_last(), v, p);
        assert(points =~= points.drop_last().push(points.last()));
        lemma_push_contains(points.drop_last(), points.last(), p);
        lemma_push_contains(higher_than(points.drop_last(), v), points.last(), p);
    }
}

proof fn lemma_earliest(points: Seq<Point>)
    requires
        points.len() > 0,
    ensures
        points.contains(earliest(points)),
        forall|q: Point| #[trigger] points.contains(q) ==> earliest(points).0 <= q.0,
    decreases points.len(),
{
    if points.len() == 1 {
        assert(points[0] == earliest(points));
    } else {
        let head = points.drop_last();
        lemma_earliest(head);
        assert(points =~= head.push(points.last()));
        lemma_push_contains(head, points.last(), earliest(points));
        assert forall|q: Point| #[trigger] points.contains(q) implies earliest(points).0 <= q.0 by {
            lemma_push_contains(head, points.last(), q);
        }
    }
}

/// A session never seen with window data is never held.
pub proof fn a_session_without_windows_is_not_held(costs: Seq<Point>, usd: Option<i64>, now: int)
    ensures
        hold_of(Seq::empty(), costs, usd, now) is None,
{
}

/// A counter that has not moved since the windows stopped is held however long it idles and
/// whatever the payload now shows.
pub proof fn a_frozen_counter_is_held(
    windows: Seq<Point>,
    costs: Seq<Point>,
    frozen: i64,
    usd: Option<i64>,
    now: int,
)
    requires
        windows.len() > 0,
        forall|p: Point| #[trigger] costs.contains(p) && p.0 > last_time(windows) ==> p.1 == frozen,
    ensures
        hold_of(windows, costs, usd, now) == Some(clamp_i64(now - last_time(windows)) as i64),
{
    let t = last_time(windows) as int;
    let since = later_than(costs, t);
    if since.len() > 0 {
        lemma_earliest(since);
        let restored = earliest(since);
        lemma_later_contains(costs, t, restored);
        let moved = higher_than(since, restored.1 as int);
        if moved.len() > 0 {
            assert(moved.contains(moved[0]));
            lemma_higher_contains(since, restored.1 as int, moved[0]);
            lemma_later_contains(costs, t, moved[0]);
        }
    }
}

/// Evidence gathered before the windows came back counts for nothing: with no cost observed
/// after the last window the session is held, and the quiet time runs from that window.
pub proof fn returning_windows_restart_the_clock(
    windows: Seq<Point>,
    costs: Seq<Point>,
    usd: Option<i64>,
    now: int,
)
    requires
        windows.len() > 0,
        forall|p: Point| #[trigger] costs.contains(p) ==> p.0 <= last_time(windows),
    ensures
        hold_of(windows, costs, usd, now) == Some(clamp_i64(now - last_time(windows)) as i64),
{
    a_frozen_counter_is_held(windows, costs, 0, usd, now);
}

/// A session that reported windows is released only on time and movement together: its
/// counter was seen to rise after the windows stopped, no less than the hold ago, and the
/// payload's counter has gone on climbing past that.
pub proof fn release_takes_time_and_movement(
    windows: Seq<Point>,
    costs: Seq<Point>,
    usd: Option<i64>,
    now: int,
)
    requires
        windows.len() > 0,
        hold_of(windows, costs, usd, now) is None,
    ensures
        exists|a: Point, b: Point|
            #![trigger costs.contains(a), costs.contains(b)]
            {
                &&& costs.contains(a) && costs.contains(b)
                &&& a.0 > last_time(windows) && b.0 > last_time(windows)
                &&& a.0 <= b.0 && a.1 < b.1
                &&& now - b.0 >= SUB_HOLD_SECS
                &&& usd matches Some(u) && u > b.1
            },
{
    let t = last_time(windows) as int;
    let since = later_than(costs, t);
    lemma_earliest(since);
    let a = earliest(since);
    let moved = higher_than(since, a.1 as int);
    lemma_earliest(moved);
    let b = earliest(moved);
    lemma_higher_contains(since, a.1 as int, b);
    lemma_later_contains(costs, t, a);
    lemma_later_contains(costs, t, b);
    assert(costs.contains(a) && costs.contains(b));
}

/// Whether a counter never falls as time passes, however its points are listed.
pub open spec fn never_falls(points: Seq<Point>) -> bool {
    forall|a: Point, b: Point|
        #![trigger points.contains(a), points.contains(b)]
        points.contains(a) && points.contains(b) && a.0 <= b.0 ==> a.1 <= b.1
}

/// Forgetting cost samples never releases a session: what is left of a counter that never falls
/// proves no switch that the whole of it does not.
pub proof fn fewer_samples_never_release(
    windows: Seq<Point>,
    costs: Seq<Point>,
    kept_windows: Seq<Point>,
    kept_costs: Seq<Point>,
    usd: Option<i64>,
    now: int,
)
    requires
        hold_of(windows, costs, usd, now) is Some,
        kept_windows.len() > 0,
        last_time(kept_windows) == last_time(windows),
        forall|p: Point| #[trigger] kept_costs.contains(p) ==> costs.contains(p),
        never_falls(costs),
    ensures
        hold_of(kept_windows, kept_costs, usd, now) == hold_of(windows, costs, usd, now),
{
    if hold_of(kept_windows, kept_costs, usd, now) is None {
        let t = last_time(windows) as int;
        let kept = later_than(kept_costs, t);
        lemma_earliest(kept);
        let kept_first = earliest(kept);
        let kept_moved = higher_than(kept, kept_first.1 as int);
        lemma_earliest(kept_moved);
        let b = earliest(kept_moved);
        lemma_higher_contains(kept, kept_first.1 as int, b);
        lemma_later_contains(kept_costs, t, kept_first);
        lemma_later_contains(kept_costs, t, b);

        // The whole counter was restored no higher, and moved no later and to no more.
        let since = later_than(costs, t);
        lemma_later_contains(costs, t, kept_first);
        lemma_later_contains(costs, t, b);
        lemma_earliest(since);
        let first = earliest(since);
        lemma_later_contains(costs, t, first);
        assert(costs.contains(first) && costs.contains(kept_first));
        assert(since.contains(kept_first));
        let moved = higher_than(since, first.1 as int);
        lemma_higher_contains(since, first.1 as int, b);
        lemma_earliest(moved);
        let a = earliest(moved);
        lemma_higher_contains(since, first.1 as int, a);
        lemma_later_contains(costs, t, a);
        assert(costs.contains(a) && costs.contains(b));
        assert(moved.contains(b));
    }
}

/// Once released on some counter, a session stays released as time passes and the counter
/// climbs, for as long as no window comes back.
pub proof fn a_released_session_stays_released(
    windows: Seq<Point>,
    costs: Seq<Point>,
    usd: i64,
    now: int,
    later_usd: i64,
    later: int,
)
    requires
        hold_of(windows, costs, Some(usd), now) is None,
        later_usd >= usd,
        later >= now,
    ensures
        hold_of(windows, costs, Some(later_usd), later) is None,
{
}

/// Whether a sample shows the session `k` under a subscription.
pub open spec fn shows_windows(s: Sample, k: Seq<char>) -> bool {
    sample_key(s) == Some(k) && on_subscription(s)
}

/// Whether a sample shows the counter of the session `k` after `t`, without a subscription.
pub open spec fn shows_counter(s: Sample, k: Seq<char>, t: int) -> bool {
    sample_key(s) == Some(k) && !on_subscription(s) && s.usd is Some && s.t > t
}

/// A session that was last under a subscription at the sample `w`, and whose counter has not fallen
/// since, is released exactly if its counter was seen to rise, no less than 45 minutes ago, and the
/// payload's counter stands above that. Until then it is held, and its quiet time runs from `w`.
pub proof fn a_session_is_released_on_a_counter_that_went_on(
    hist: Seq<Sample>,
    k: Seq<char>,
    w: int,
    usd: Option<i64>,
    now: int,
)
    requires
        0 <= w < hist.len(),
        shows_windows(hist[w], k),
        forall|i: int|
            0 <= i < hist.len() && shows_windows(#[trigger] hist[i], k) ==> hist[i].t <= hist[w].t,
        forall|i: int, j: int|
            0 <= i < hist.len() && 0 <= j < hist.len() && shows_counter(
                #[trigger] hist[i],
                k,
                hist[w].t as int,
            ) && shows_counter(#[trigger] hist[j], k, hist[w].t as int) && hist[i].t <= hist[j].t
                ==> hist[i].usd->0 <= hist[j].usd->0,
    ensures
        ({
            let hold = hold_of(windows_in(hist, k), costs_in(hist, k), usd, now);
            &&& hold is None <==> usd is Some && exists|i: int, j: int|
                0 <= i < hist.len() && 0 <= j < hist.len() && shows_counter(
                    #[trigger] hist[i],
                    k,
                    hist[w].t as int,
                ) && shows_counter(#[trigger] hist[j], k, hist[w].t as int) && hist[i].usd->0
                    < hist[j].usd->0 < usd->0 && now - hist[j].t >= 2_700
            &&& hold is Some ==> hold == Some(clamp_i64(now - hist[w].t) as i64)
        }),
{
    let windows = windows_in(hist, k);
    let costs = costs_in(hist, k);
    let t = hist[w].t as int;
    let top: Point = (hist[w].t, 0i64);
    lemma_session_points(hist, k, top);
    assert(hist.contains(hist[w]));
    assert(windows.contains(top));
    assert forall|q: Point| #[trigger] windows.contains(q) implies q.0 <= top.0 by {
        lemma_session_points(hist, k, q);
        let s = choose|s: Sample| #[trigger]
            hist.contains(s) && sample_key(s) == Some(k) && on_subscription(s) && s.t == q.0;
        assert(shows_windows(hist[hist.index_of(s)], k));
    }
    lemma_is_last_time(windows, top);
    assert forall|p: Point| #[trigger] costs.contains(p) && p.0 > t implies exists|i: int|
        0 <= i < hist.len() && shows_counter(#[trigger] hist[i], k, t) && hist[i].t == p.0
            && hist[i].usd == Some(p.1) by {
        lemma_session_points(hist, k, p);
        let s = choose|s: Sample| #[trigger]
            hist.contains(s) && sample_key(s) == Some(k) && !on_subscription(s) && s.t == p.0
                && s.usd == Some(p.1);
        assert(shows_counter(hist[hist.index_of(s)], k, t));
    }
    if hold_of(windows, costs, usd, now) is None {
        release_takes_time_and_movement(windows, costs, usd, now);
        let (a, b) = choose|a: Point, b: Point|
            #![trigger costs.contains(a), costs.contains(b)]
            {
                &&& costs.contains(a) && costs.contains(b)
                &&& a.0 > last_time(windows) && b.0 > last_time(windows)
                &&& a.0 <= b.0 && a.1 < b.1
                &&& now - b.0 >= SUB_HOLD_SECS
                &&& usd matches Some(u) && u > b.1
            };
        let i = choose|i: int|
            0 <= i < hist.len() && shows_counter(#[trigger] hist[i], k, t) && hist[i].t == a.0
                && hist[i].usd == Some(a.1);
        let j = choose|j: int|
            0 <= j < hist.len() && shows_counter(#[trigger] hist[j], k, t) && hist[j].t == b.0
                && hist[j].usd == Some(b.1);
        assert(shows_counter(hist[i], k, t) && shows_counter(hist[j], k, t));
    }
    if usd is Some && exists|i: int, j: int|
        0 <= i < hist.len() && 0 <= j < hist.len() && shows_counter(#[trigger] hist[i], k, t)
            && shows_counter(#[trigger] hist[j], k, t) && hist[i].usd->0 < hist[j].usd->0 < usd->0
            && now - hist[j].t >= 2_700 {
        let (i, j) = choose|i: int, j: int|
            0 <= i < hist.len() && 0 <= j < hist.len() && shows_counter(#[trigger] hist[i], k, t)
                && shows_counter(#[trigger] hist[j], k, t) && hist[i].usd->0 < hist[j].usd->0
                < usd->0 && now - hist[j].t >= 2_700;
        let a: Point = (hist[i].t, hist[i].usd->0);
        let b: Point = (hist[j].t, hist[j].usd->0);
        assert(hist.contains(hist[i]) && hist.contains(hist[j]));
        lemma_session_points(hist, k, a);
        lemma_session_points(hist, k, b);
        let since = later_than(costs, t);
        lemma_later_contains(costs, t, a);
        lemma_later_contains(costs, t, b);
        assert(since.contains(a) && since.contains(b));
        lemma_earliest(since);
        let first = earliest(since);
        lemma_later_contains(costs, t, first);
        let f = choose|f: int|
            0 <= f < hist.len() && shows_counter(#[trigger] hist[f], k, t) && hist[f].t == first.0
                && hist[f].usd == Some(first.1);
        assert(hist[f].usd->0 <= hist[i].usd->0);
        let moved = higher_than(since, first.1 as int);
        lemma_higher_contains(since, first.1 as int, b);
        assert(moved.contains(b));
        lemma_earliest(moved);
        let m = earliest(moved);
        lemma_higher_contains(since, first.1 as int, m);
        lemma_later_contains(costs, t, m);
        let g = choose|g: int|
            0 <= g < hist.len() && shows_counter(#[trigger] hist[g], k, t) && hist[g].t == m.0
                && hist[g].usd == Some(m.1);
        assert(hist[g].usd->0 <= hist[j].usd->0);
    }
}

/// Sessions are told apart by the first twelve characters of their ids: two ids that agree on them
/// are one session, and an id that is no longer stands for itself. An empty id is none.
pub proof fn sessions_are_told_apart_by_twelve_characters(a: Seq<char>, b: Seq<char>)
    ensures
        a.len() == 0 ==> key_of(Some(a)) is None,
        0 < a.len() <= 12 ==> key_of(Some(a)) == Some(a),
        a.len() >= 12 && b.len() >= 12 ==> (key_of(Some(a)) == key_of(Some(b)) <==> forall|i: int|
            0 <= i < 12 ==> #[trigger] a[i] == b[i]),
{
    if a.len() >= 12 && b.len() >= 12 {
        let (ka, kb) = (a.take(12), b.take(12));
        assert(key_of(Some(a)) == Some(ka)) by {
            if a.len() == 12 {
                assert(ka =~= a);
            }
        }
        assert(key_of(Some(b)) == Some(kb)) by {
            if b.len() == 12 {
                assert(kb =~= b);
            }
        }
        if ka == kb {
            assert forall|i: int| 0 <= i < 12 implies #[trigger] a[i] == b[i] by {
                assert(ka[i] == kb[i]);
            }
        }
        if forall|i: int| 0 <= i < 12 ==> #[trigger] a[i] == b[i] {
            assert(ka =~= kb);
        }
    }
}

// ---------------------------------------------------------------------------------------
// Laws of the reserved samples
// ---------------------------------------------------------------------------------------

/// However many sessions end while quiet, no more than two samples each of
/// [`MAX_ANCHOR_SESSIONS`] sessions are reserved.
pub proof fn reserved_samples_are_bounded(windows: Seq<Event>, costs: Seq<Event>)
    ensures
        anchor_list(windows, costs).len() <= 2 * MAX_ANCHOR_SESSIONS,
{
    let order = ranked(quiet_sessions(windows, costs));
    lemma_reserve_len(
        order,
        if order.len() < MAX_ANCHOR_SESSIONS {
            order.len()
        } else {
            MAX_ANCHOR_SESSIONS as nat
        },
    );
}

proof fn lemma_reserve_len(order: Seq<Quiet>, n: nat)
    ensures
        reserve(order, n).len() == 2 * n,
    decreases n,
{
    if n > 0 {
        lemma_reserve_len(order, (n - 1) as nat);
    }
}

proof fn lemma_reserve_contains(order: Seq<Quiet>, n: nat, i: int)
    requires
        0 <= i < n,
    ensures
        reserve(order, n).contains((order[i].key, order[i].window)),
        reserve(order, n).contains((order[i].key, order[i].cost)),
    decreases n,
{
    let before = reserve(order, (n - 1) as nat);
    let q = order[n - 1];
    if i < n - 1 {
        lemma_reserve_contains(order, (n - 1) as nat, i);
    }
    lemma_push_contains(before, (q.key, q.window), (order[i].key, order[i].window));
    lemma_push_contains(before, (q.key, q.window), (order[i].key, order[i].cost));
    lemma_push_contains(
        before.push((q.key, q.window)),
        (q.key, q.cost),
        (order[i].key, order[i].window),
    );
    lemma_push_contains(
        before.push((q.key, q.window)),
        (q.key, q.cost),
        (order[i].key, order[i].cost),
    );
}

proof fn lemma_recency_is_an_order(a: Quiet, b: Quiet, c: Quiet)
    ensures
        more_recent(a, b) ==> !more_recent(b, a),
        !more_recent(b, a) && !more_recent(c, b) ==> !more_recent(c, a),
{
    lemma_dictionary_order_is_total(a.key, b.key);
    lemma_dictionary_order_is_total(b.key, c.key);
    lemma_dictionary_order_is_total(a.key, c.key);
    if comes_before(c.key, a.key) && comes_before(a.key, b.key) {
        lemma_dictionary_order_is_transitive(c.key, a.key, b.key);
    }
    if comes_before(b.key, c.key) && comes_before(c.key, a.key) {
        lemma_dictionary_order_is_transitive(b.key, c.key, a.key);
    }
}

/// The most recently active first.
pub open spec fn by_recency(s: Seq<Quiet>) -> bool {
    forall|i: int, j: int| 0 <= i < j < s.len() ==> !more_recent(#[trigger] s[j], #[trigger] s[i])
}

proof fn lemma_insert_keeps_order(s: Seq<Quiet>, x: Quiet)
    requires
        by_recency(s),
    ensures
        by_recency(insert_ranked(s, x)),
        insert_ranked(s, x).to_multiset() == s.to_multiset().insert(x),
        forall|y: Quiet| #[trigger] insert_ranked(s, x).contains(y) <==> s.contains(y) || y == x,
        insert_ranked(s, x).len() == s.len() + 1,
    decreases s.len(),
{
    broadcast use vstd::seq_lib::group_to_multiset_ensures;

    if s.len() > 0 && more_recent(x, s.last()) {
        let head = s.drop_last();
        let last = s.last();
        lemma_insert_keeps_order(head, x);
        let r = insert_ranked(head, x);
        assert(s =~= head.push(last));
        assert(r.push(last).to_multiset() =~= s.to_multiset().insert(x));
        assert forall|y: Quiet| #[trigger] r.push(last).contains(y) <==> s.contains(y) || y == x by {
            lemma_push_contains(r, last, y);
            lemma_push_contains(head, last, y);
        }
        assert forall|i: int, j: int| 0 <= i < j < r.push(last).len() implies !more_recent(
            #[trigger] r.push(last)[j],
            #[trigger] r.push(last)[i],
        ) by {
            if j == r.len() {
                assert(r.contains(r[i]));
                lemma_recency_is_an_order(x, last, x);
                if r[i] != x {
                    let k = head.index_of(r[i]);
                    assert(s[k] == r[i] && s[s.len() - 1] == last);
                }
            }
        }
    } else {
        let r = s.push(x);
        assert forall|y: Quiet| #[trigger] r.contains(y) <==> s.contains(y) || y == x by {
            lemma_push_contains(s, x, y);
        }
        assert forall|i: int, j: int| 0 <= i < j < r.len() implies !more_recent(
            #[trigger] r[j],
            #[trigger] r[i],
        ) by {
            if j == s.len() {
                assert(s[s.len() - 1] == s.last());
                lemma_recency_is_an_order(s[i], s.last(), x);
            }
        }
    }
}

/// Sessions are reserved in order of recency: ranking loses and invents none, and none stands
/// behind one that was quiet for longer. What is given up first is the longest quiet.
pub proof fn quiet_sessions_are_ranked_by_recency(q: Seq<Quiet>)
    ensures
        by_recency(ranked(q)),
        ranked(q).to_multiset() == q.to_multiset(),
        ranked(q).len() == q.len(),
        forall|y: Quiet| #[trigger] ranked(q).contains(y) <==> q.contains(y),
    decreases q.len(),
{
    broadcast use vstd::seq_lib::group_to_multiset_ensures;

    if q.len() > 0 {
        let head = q.drop_last();
        quiet_sessions_are_ranked_by_recency(head);
        lemma_insert_keeps_order(ranked(head), q.last());
        assert(q =~= head.push(q.last()));
        assert(ranked(q).to_multiset() =~= q.to_multiset());
        assert forall|y: Quiet| #[trigger] ranked(q).contains(y) <==> q.contains(y) by {
            lemma_push_contains(head, q.last(), y);
            assert(insert_ranked(ranked(head), q.last()).contains(y) <==> ranked(head).contains(y)
                || y == q.last());
        }
    } else {
        assert(ranked(q) =~= q);
    }
}

/// Of two quiet sessions the one whose counter was seen later is reserved first.
pub proof fn the_session_seen_later_is_reserved_first(q: Seq<Quiet>, i: int, j: int)
    requires
        0 <= i < j < q.len(),
    ensures
        ranked(q).len() == q.len(),
        ranked(q)[i].cost >= ranked(q)[j].cost,
{
    quiet_sessions_are_ranked_by_recency(q);
    assert(!more_recent(ranked(q)[j], ranked(q)[i]));
}

/// Both samples of each of the [`MAX_ANCHOR_SESSIONS`] most recently active quiet sessions are
/// reserved.
pub proof fn the_most_recent_quiet_sessions_are_reserved(
    windows: Seq<Event>,
    costs: Seq<Event>,
    i: int,
)
    requires
        0 <= i < ranked(quiet_sessions(windows, costs)).len(),
        i < MAX_ANCHOR_SESSIONS,
    ensures
        ({
            let q = ranked(quiet_sessions(windows, costs))[i];
            &&& anchor_list(windows, costs).contains((q.key, q.window))
            &&& anchor_list(windows, costs).contains((q.key, q.cost))
        }),
{
    let order = ranked(quiet_sessions(windows, costs));
    lemma_reserve_contains(
        order,
        if order.len() < MAX_ANCHOR_SESSIONS {
            order.len()
        } else {
            MAX_ANCHOR_SESSIONS as nat
        },
        i,
    );
}

proof fn lemma_window_event(hist: Seq<Sample>, k: Seq<char>, p: Point)
    ensures
        window_events(hist).contains((k, p)) <==> p.1 == 0 && exists|s: Sample|
            #[trigger] hist.contains(s) && sample_key(s) == Some(k) && on_subscription(s) && s.t
                == p.0,
    decreases hist.len(),
{
    if hist.len() > 0 {
        let head = hist.drop_last();
        let last = hist.last();
        lemma_window_event(head, k, p);
        assert(hist =~= head.push(last));
        lemma_push_contains(head, last, last);
        let before = window_events(head);
        if sample_key(last) is Some {
            lemma_push_contains(before, (sample_key(last)->0, (last.t, 0i64)), (k, p));
        }
        assert forall|s: Sample|
            #![trigger hist.contains(s)]
            #![trigger head.contains(s)]
            hist.contains(s) <==> head.contains(s) || s == last by {
            lemma_push_contains(head, last, s);
        }
    }
}

proof fn lemma_cost_event(hist: Seq<Sample>, k: Seq<char>, p: Point)
    ensures
        cost_events(hist).contains((k, p)) <==> exists|s: Sample| #[trigger]
            hist.contains(s) && sample_key(s) == Some(k) && !on_subscription(s) && s.t == p.0
                && s.usd == Some(p.1),
    decreases hist.len(),
{
    if hist.len() > 0 {
        let head = hist.drop_last();
        let last = hist.last();
        lemma_cost_event(head, k, p);
        assert(hist =~= head.push(last));
        lemma_push_contains(head, last, last);
        let before = cost_events(head);
        if sample_key(last) is Some && last.usd is Some {
            lemma_push_contains(before, (sample_key(last)->0, (last.t, last.usd->0)), (k, p));
        }
        assert forall|s: Sample|
            #![trigger hist.contains(s)]
            #![trigger head.contains(s)]
            hist.contains(s) <==> head.contains(s) || s == last by {
            lemma_push_contains(head, last, s);
        }
    }
}

/// The moments a session reported windows, and the counters it showed without them, are those
/// of its samples.
pub proof fn lemma_session_points(hist: Seq<Sample>, k: Seq<char>, p: Point)
    ensures
        windows_in(hist, k).contains(p) <==> p.1 == 0 && exists|s: Sample|
            #[trigger] hist.contains(s) && sample_key(s) == Some(k) && on_subscription(s) && s.t
                == p.0,
        costs_in(hist, k).contains(p) <==> exists|s: Sample| #[trigger]
            hist.contains(s) && sample_key(s) == Some(k) && !on_subscription(s) && s.t == p.0
                && s.usd == Some(p.1),
{
    lemma_points_are_events(window_events(hist), k, p);
    lemma_points_are_events(cost_events(hist), k, p);
    lemma_window_event(hist, k, p);
    lemma_cost_event(hist, k, p);
}

} // verus!
