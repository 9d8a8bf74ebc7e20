//! Pay-as-you-go spend maths for API-key sessions.
//!
//! With API-key billing the payload has no `rate_limits` — there is no account allowance
//! to show a percentage of — but `cost.total_cost_usd` is the session's actual
//! pay-as-you-go cost (subscription sessions carry only a shadow estimate). These helpers
//! rebuild a machine-wide "spent today" figure from the per-session cumulative counters in
//! the sample history: each session contributes its counter's movement across today's
//! observations (its last pre-midnight counter is the exact baseline when it spans
//! midnight).
//!
//! Attribution is deliberately conservative: spend that can't be *proven* to belong to
//! today — a session's counter before its first observation — is excluded. The day figure
//! undercounts rather than guesses, and only explicitly flagged API samples count at all.

use vstd::prelude::*;
use vstd::string::*;

use crate::burn::{in_micros, readings, slope, slope_per_hr, Reading};
use crate::double::{eta_at, gap_of, held_eta, held_gap, lemma_ends_before, lemma_eta_wf, Held};
use crate::fmt::{
    dur_text, fmt_dur, fmt_usd_rate, suffix_colored, suffix_pair, suffix_plain, usd_rate_text,
};
use crate::history::{
    key_of, key_of_sample, near_window, on_subscription, opt_text, sample_key, session_key,
    sid_text, window_before, window_between, window_events, windows_in, Sample, SubSessions,
};
use crate::num::{
    clamp_i64, micros_at, positive_of, read_positive, saturate, secs_of, trunc_div, Micros, UNIT,
};
use crate::series::{keys_in, lemma_push_contains, points_of, BySession, Event, Point};
use crate::text::{trim_chars, trimmed};

verus! {

/// The live session's counter from the current stdin payload — fresher than the throttled
/// history, and present even before the session's first sample lands.
pub struct Live<'a> {
    pub sid: Option<&'a str>,
    pub usd: Micros,
}

pub struct DaySpend {
    /// Dollars attributed to today across sessions.
    pub total: Micros,
    /// Distinct sessions that contributed today.
    pub sessions: usize,
}

// ---------------------------------------------------------------------------------------
// What counts
// ---------------------------------------------------------------------------------------

/// Whether a sample's counter is money: flagged, attributable to a session, and not taken
/// around a moment when that session was reporting subscription windows.
pub open spec fn attributable(hist: Seq<Sample>, s: Sample) -> bool {
    &&& s.api
    &&& s.usd is Some
    &&& sample_key(s) matches Some(k)
    &&& !near_window(windows_in(hist, k), s.t as int)
}

/// The attributable observations among `part`, on one side of midnight.
pub open spec fn spend_events(
    hist: Seq<Sample>,
    part: Seq<Sample>,
    midnight: int,
    today: bool,
) -> Seq<Event>
    decreases part.len(),
{
    if part.len() == 0 {
        Seq::empty()
    } else {
        let before = spend_events(hist, part.drop_last(), midnight, today);
        let s = part.last();
        if attributable(hist, s) && (s.t >= midnight) == today {
            before.push((sample_key(s)->0, (s.t, s.usd->0)))
        } else {
            before
        }
    }
}

/// Whole seconds of a clock reading.
pub open spec fn whole_secs(now: int) -> i64 {
    trunc_div(now, UNIT as int) as i64
}

/// The live counter, by the session it belongs to.
pub struct LiveCounter {
    pub key: Option<Seq<char>>,
    pub usd: i64,
}

pub open spec fn counter_of(live: Option<&Live>) -> Option<LiveCounter> {
    match live {
        Some(lv) => Some(LiveCounter { key: key_of(opt_text(lv.sid)), usd: lv.usd }),
        None => None,
    }
}

/// The session that is rendering.
pub open spec fn live_key(live: Option<LiveCounter>) -> Option<Seq<char>> {
    match live {
        Some(lv) => lv.key,
        None => None,
    }
}

/// Whether the live counter is money: its session is known and is not reporting subscription
/// windows around now.
pub open spec fn live_counts(hist: Seq<Sample>, live: Option<LiveCounter>, now: int) -> bool {
    &&& live_key(live) matches Some(k)
    &&& !near_window(windows_in(hist, k), whole_secs(now) as int)
}

/// Today's attributable observations, the live counter last.
pub open spec fn today_events(
    hist: Seq<Sample>,
    midnight: int,
    live: Option<LiveCounter>,
    now: int,
) -> Seq<Event> {
    let logged = spend_events(hist, hist, midnight, true);
    if live_counts(hist, live, now) {
        logged.push((live_key(live)->0, (whole_secs(now), live->0.usd)))
    } else {
        logged
    }
}

// ---------------------------------------------------------------------------------------
// Time order
// ---------------------------------------------------------------------------------------

pub open spec fn insert_by_moment(s: Seq<Reading>, x: Reading) -> Seq<Reading>
    decreases s.len(),
{
    if s.len() > 0 && x.0 < s.last().0 {
        insert_by_moment(s.drop_last(), x).push(s.last())
    } else {
        s.push(x)
    }
}

/// Sorted by time; readings of one moment keep their order.
pub open spec fn by_moment(p: Seq<Reading>) -> Seq<Reading>
    decreases p.len(),
{
    if p.len() == 0 {
        Seq::empty()
    } else {
        insert_by_moment(by_moment(p.drop_last()), p.last())
    }
}

pub open spec fn in_time_order(p: Seq<Reading>) -> bool {
    forall|i: int, j: int| 0 <= i <= j < p.len() ==> (#[trigger] p[i]).0 <= (#[trigger] p[j]).0
}

proof fn lemma_insert_position(s: Seq<Reading>, x: Reading, pos: int)
    requires
        0 <= pos <= s.len(),
        forall|i: int| pos <= i < s.len() ==> x.0 < (#[trigger] s[i]).0,
        pos > 0 ==> !(x.0 < s[pos - 1].0),
    ensures
        insert_by_moment(s, x) == s.insert(pos, x),
    decreases s.len(),
{
    if pos < s.len() {
        lemma_insert_position(s.drop_last(), x, pos);
        assert(s.insert(pos, x) =~= s.drop_last().insert(pos, x).push(s.last()));
    } else {
        assert(s.insert(pos, x) =~= s.push(x));
    }
}

/// Sorting keeps every reading and puts them in time order.
pub proof fn sorting_orders_and_keeps(p: Seq<Reading>)
    ensures
        in_time_order(by_moment(p)),
        by_moment(p).to_multiset() == p.to_multiset(),
        by_moment(p).len() == p.len(),
    decreases p.len(),
{
    broadcast use vstd::seq_lib::group_to_multiset_ensures;

    if p.len() > 0 {
        sorting_orders_and_keeps(p.drop_last());
        lemma_insert_keeps_order(by_moment(p.drop_last()), p.last());
        assert(p =~= p.drop_last().push(p.last()));
        assert(by_moment(p).to_multiset() =~= p.to_multiset());
    } else {
        assert(by_moment(p) =~= p);
    }
}

proof fn lemma_insert_keeps_order(s: Seq<Reading>, x: Reading)
    requires
        in_time_order(s),
    ensures
        in_time_order(insert_by_moment(s, x)),
        insert_by_moment(s, x).to_multiset() == s.to_multiset().insert(x),
        insert_by_moment(s, x).len() == s.len() + 1,
        forall|i: int|
            0 <= i <= s.len() ==> (#[trigger] insert_by_moment(s, x)[i]).0 <= x.0 || exists|j: int|
                0 <= j < s.len() && (#[trigger] s[j]).0 >= insert_by_moment(s, x)[i].0,
    decreases s.len(),
{
    broadcast use vstd::seq_lib::group_to_multiset_ensures;

    let r = insert_by_moment(s, x);
    if s.len() > 0 && x.0 < s.last().0 {
        let head = s.drop_last();
        let last = s.last();
        lemma_insert_keeps_order(head, x);
        let q = insert_by_moment(head, x);
        assert(s =~= head.push(last));
        assert(r.to_multiset() =~= s.to_multiset().insert(x));
        assert(s[s.len() - 1] == last);
        assert forall|i: int| 0 <= i < q.len() implies (#[trigger] q[i]).0 <= last.0 by {
            if q[i].0 > x.0 {
                let j = choose|j: int| 0 <= j < head.len() && (#[trigger] head[j]).0 >= q[i].0;
                assert(s[j] == head[j]);
            }
        }
        assert forall|i: int, j: int| 0 <= i <= j < r.len() implies (#[trigger] r[i]).0 <= (
        #[trigger] r[j]).0 by {
            if j < q.len() {
                assert(r[i] == q[i] && r[j] == q[j]);
            } else if i < q.len() {
                assert(r[i] == q[i]);
            }
        }
        assert forall|i: int| 0 <= i <= s.len() implies (#[trigger] r[i]).0 <= x.0 || exists|j: int|
            0 <= j < s.len() && (#[trigger] s[j]).0 >= r[i].0 by {
            assert(s[s.len() - 1].0 >= r[i].0) by {
                if i < q.len() {
                    assert(r[i] == q[i]);
                }
            }
        }
    } else {
        assert forall|i: int, j: int| 0 <= i <= j < r.len() implies (#[trigger] r[i]).0 <= (
        #[trigger] r[j]).0 by {
            if s.len() > 0 {
                assert(s[s.len() - 1] == s.last());
            }
        }
        assert forall|i: int| 0 <= i <= s.len() implies (#[trigger] r[i]).0 <= x.0 || exists|j: int|
            0 <= j < s.len() && (#[trigger] s[j]).0 >= r[i].0 by {
            if i < s.len() {
                assert(s[i].0 >= r[i].0);
            }
        }
    }
}

fn insert_reading(v: &mut Vec<Reading>, x: Reading)
    ensures
        final(v)@ == insert_by_moment(old(v)@, x),
{
    let mut pos: usize = v.len();
    while pos > 0 && x.0 < v[pos - 1].0
        invariant
            pos <= v@.len(),
            forall|i: int| pos <= i < v@.len() ==> x.0 < (#[trigger] v@[i]).0,
        decreases pos,
    {
        pos = pos - 1;
    }
    proof {
        lemma_insert_position(v@, x, pos as int);
    }
    v.insert(pos, x);
}

// ---------------------------------------------------------------------------------------
// A session's day
// ---------------------------------------------------------------------------------------

/// The better baseline: the higher counter, and of equal ones the later.
pub open spec fn better(a: Point, b: Point) -> bool {
    a.1 > b.1 || (a.1 == b.1 && a.0 > b.0)
}

/// The best baseline of a series that is not empty.
pub open spec fn highest(p: Seq<Point>) -> Point
    decreases p.len(),
{
    if p.len() <= 1 {
        p[0]
    } else if better(p.last(), highest(p.drop_last())) {
        p.last()
    } else {
        highest(p.drop_last())
    }
}

/// Observations as readings in whole seconds.
pub open spec fn in_secs(p: Seq<Point>) -> Seq<Reading> {
    Seq::new(p.len(), |i: int| (p[i].0 as i128, p[i].1))
}

/// Where a session's day starts from: its last counter before midnight, unless it reported
/// windows between that and its first counter today.
pub open spec fn baseline(windows: Seq<Point>, pre: Seq<Point>, first: Reading) -> int {
    if pre.len() > 0 && !window_between(windows, highest(pre).0 as int, first.0 as int) && highest(
        pre,
    ).1 < first.1 {
        highest(pre).1 as int
    } else {
        first.1 as int
    }
}

/// What a session has been charged so far: for the runs that ended, and the lowest and
/// highest counter of the run that is going on.
pub struct Tally {
    pub closed: int,
    pub base: int,
    pub top: int,
}

pub open spec fn movement(t: Tally) -> int {
    if t.top > t.base {
        t.top - t.base
    } else {
        0
    }
}

/// The first `n` observations, in runs. A run ends wherever the session reported windows
/// between two observations, and the next starts from its own first counter. Within a run the
/// highest counter counts: a cumulative counter cannot fall.
pub open spec fn tally(windows: Seq<Point>, p: Seq<Reading>, base: int, n: nat) -> Tally
    decreases n,
{
    if n <= 1 {
        Tally { closed: 0, base, top: p[0].1 as int }
    } else {
        let t = tally(windows, p, base, (n - 1) as nat);
        let u = p[n - 1].1 as int;
        if window_between(windows, p[n - 2].0 as int, p[n - 1].0 as int) {
            Tally { closed: t.closed + movement(t), base: u, top: u }
        } else {
            Tally {
                closed: t.closed,
                base: t.base,
                top: if u > t.top {
                    u
                } else {
                    t.top
                },
            }
        }
    }
}

/// What a session contributes to the day, from its observations before midnight and today.
pub open spec fn charge(windows: Seq<Point>, pre: Seq<Point>, obs: Seq<Point>) -> int {
    let p = by_moment(in_secs(obs));
    let t = tally(windows, p, baseline(windows, pre, p[0]), p.len());
    t.closed + movement(t)
}

/// What the first `n` sessions observed today contribute.
pub open spec fn charges(
    hist: Seq<Sample>,
    pre: Seq<Event>,
    today: Seq<Event>,
    n: nat,
) -> int
    decreases n,
{
    if n == 0 {
        0
    } else {
        let k = keys_in(today)[n - 1];
        charges(hist, pre, today, (n - 1) as nat) + charge(
            windows_in(hist, k),
            points_of(pre, k),
            points_of(today, k),
        )
    }
}

/// Dollars spent today across sessions, in millionths.
pub open spec fn day_total(
    hist: Seq<Sample>,
    midnight: int,
    live: Option<LiveCounter>,
    now: int,
) -> int {
    let today = today_events(hist, midnight, live, now);
    charges(hist, spend_events(hist, hist, midnight, false), today, keys_in(today).len())
}

proof fn lemma_tally(windows: Seq<Point>, p: Seq<Reading>, base: int, n: nat)
    ensures
        tally(windows, p, base, n).closed >= 0,
    decreases n,
{
    if n > 1 {
        lemma_tally(windows, p, base, (n - 1) as nat);
    }
}

fn best_baseline(p: &Vec<Point>) -> (r: Point)
    requires
        p@.len() > 0,
    ensures
        r == highest(p@),
{
    let mut best: Point = p[0];
    let mut i: usize = 1;
    assert(p@.take(1)[0] == p@[0]);
    while i < p.len()
        invariant
            1 <= i <= p@.len(),
            best == highest(p@.take(i as int)),
        decreases p@.len() - i,
    {
        assert(p@.take(i + 1).drop_last() =~= p@.take(i as int));
        if p[i].1 > best.1 || (p[i].1 == best.1 && p[i].0 > best.0) {
            best = p[i];
        }
        i = i + 1;
    }
    assert(p@.take(i as int) =~= p@);
    best
}

fn sorted_secs(obs: &Vec<Point>) -> (r: Vec<Reading>)
    ensures
        r@ == by_moment(in_secs(obs@)),
{
    let mut v: Vec<Reading> = Vec::new();
    let mut i: usize = 0;
    let ghost all = in_secs(obs@);
    assert(all.take(0) =~= Seq::<Reading>::empty());
    while i < obs.len()
        invariant
            i <= obs@.len(),
            all == in_secs(obs@),
            v@ == by_moment(all.take(i as int)),
        decreases obs@.len() - i,
    {
        assert(all.take(i + 1).drop_last() =~= all.take(i as int));
        assert(all.take(i + 1).last() == all[i as int]);
        insert_reading(&mut v, (obs[i].0 as i128, obs[i].1));
        i = i + 1;
    }
    assert(all.take(i as int) =~= all);
    v
}

fn gain(top: i64, base: i64) -> (r: i128)
    ensures
        r == movement((Tally { closed: 0, base: base as int, top: top as int })),
        0 <= r <= u64::MAX,
{
    if top > base {
        top as i128 - base as i128
    } else {
        0
    }
}

/// One session's contribution to the day.
fn session_charge(
    subs: &SubSessions,
    key: &str,
    pre: Option<&Vec<Point>>,
    obs: &Vec<Point>,
) -> (r: i64)
    requires
        subs.wf(),
        obs@.len() > 0,
        pre matches Some(v) ==> v@.len() > 0,
    ensures
        ({
            let before = match pre {
                Some(v) => v@,
                None => Seq::<Point>::empty(),
            };
            &&& r == clamp_i64(charge(subs.windows_of(key@), before, obs@))
            &&& charge(subs.windows_of(key@), before, obs@) >= 0
        }),
{
    let ghost before = match pre {
        Some(v) => v@,
        None => Seq::<Point>::empty(),
    };
    let ghost windows = subs.windows_of(key@);
    let p = sorted_secs(obs);
    proof {
        sorting_orders_and_keeps(in_secs(obs@));
        lemma_secs_range(in_secs(obs@));
    }
    let first: Reading = p[0];
    let mut base: i64 = first.1;
    if let Some(v) = pre {
        let (pt, pu) = best_baseline(v);
        if !subs.windowed_between(key, pt, first.0 as i64) && pu < first.1 {
            base = pu;
        }
    }
    let ghost start = base as int;
    assert(start == baseline(windows, before, p@[0]));
    let mut top: i64 = first.1;
    let mut closed: i64 = 0;
    let mut i: usize = 1;
    while i < p.len()
        invariant
            1 <= i <= p@.len(),
            subs.wf(),
            windows == subs.windows_of(key@),
            forall|j: int| 0 <= j < p@.len() ==> i64::MIN <= (#[trigger] p@[j]).0 <= i64::MAX,
            ({
                let t = tally(windows, p@, start, i as nat);
                &&& base == t.base
                &&& top == t.top
                &&& closed == clamp_i64(t.closed)
                &&& t.closed >= 0
            }),
        decreases p@.len() - i,
    {
        proof {
            lemma_tally(windows, p@, start, (i + 1) as nat);
        }
        let prev: i64 = p[i - 1].0 as i64;
        let (t, u) = p[i];
        if subs.windowed_between(key, prev, t as i64) {
            closed = saturate(closed as i128 + gain(top, base));
            base = u;
            top = u;
        } else if u > top {
            top = u;
        }
        i = i + 1;
    }
    saturate(closed as i128 + gain(top, base))
}

proof fn lemma_secs_range(p: Seq<Reading>)
    requires
        forall|j: int| 0 <= j < p.len() ==> i64::MIN <= (#[trigger] p[j]).0 <= i64::MAX,
    ensures
        forall|j: int|
            0 <= j < by_moment(p).len() ==> i64::MIN <= (#[trigger] by_moment(p)[j]).0 <= i64::MAX,
{
    broadcast use vstd::seq_lib::group_to_multiset_ensures;

    sorting_orders_and_keeps(p);
    let r = by_moment(p);
    assert forall|j: int| 0 <= j < r.len() implies i64::MIN <= (#[trigger] r[j]).0 <= i64::MAX by {
        assert(r.contains(r[j]));
        assert(r.to_multiset().count(r[j]) > 0);
        assert(p.contains(r[j]));
    }
}

/// Today's spend across sessions from the API-key samples at/after `midnight`, with the
/// live session's current counter merged in. Samples without a session id are skipped —
/// they cannot be attributed to a baseline (and would otherwise collapse into one bucket).
///
/// A flagged sample is dropped when its session was reporting subscription windows around
/// the time it was taken: the flag is written from the payload's shape, so the resume
/// transient can flag one stray sample before the truth arrives. Judging each sample by its
/// own moment — rather than excluding every session that ever held a subscription — is what
/// lets a session that genuinely switched auth mid-life contribute the dollars it spent
/// after the switch.
///
/// That per-moment judgement is also why a session's observations are differenced in
/// *runs*. `cost.total_cost_usd` is one counter that keeps climbing through a subscription
/// phase on the shadow estimate, so a session that ran on an API key, moved to a
/// subscription, and came back would otherwise have the whole shadow climb differenced into
/// its day total. A run ends wherever the session reported window data between two
/// observations, and the next one re-bases: the climb across the phase is discarded rather
/// than guessed at, the same direction every other unknown here is resolved.
pub fn day_spend(hist: &[Sample], midnight: i64, live: Option<&Live>, now: Micros) -> (r: DaySpend)
    ensures
        r.total == clamp_i64(day_total(hist@, midnight as int, counter_of(live), now as int)),
        r.sessions == keys_in(today_events(hist@, midnight as int, counter_of(live), now as int)).len(),
{
    let subs = SubSessions::build(hist);
    let mut pre = BySession::new();
    let mut obs = BySession::new();
    let mut i: usize = 0;
    assert(hist@.take(0) =~= Seq::<Sample>::empty());
    while i < hist.len()
        invariant
            i <= hist@.len(),
            subs.wf(),
            subs.window_log() == window_events(hist@),
            pre.wf(),
            obs.wf(),
            pre@ == spend_events(hist@, hist@.take(i as int), midnight as int, false),
            obs@ == spend_events(hist@, hist@.take(i as int), midnight as int, true),
        decreases hist@.len() - i,
    {
        let s = &hist[i];
        assert(hist@.take(i + 1).drop_last() =~= hist@.take(i as int));
        assert(hist@.take(i + 1).last() == *s);
        if s.api {
            if let (Some(u), Some(k)) = (s.usd, key_of_sample(s)) {
                if !subs.active_at(k.as_str(), s.t) {
                    if s.t < midnight {
                        pre.add(k.as_str(), s.t, u);
                    } else {
                        obs.add(k.as_str(), s.t, u);
                    }
                }
            }
        }
        i = i + 1;
    }
    assert(hist@.take(i as int) =~= hist@);
    if let Some(lv) = live {
        if let Some(k) = session_key(lv.sid) {
            let t = secs_of(now);
            if !subs.active_at(k.as_str(), t) {
                obs.add(k.as_str(), t, lv.usd);
            }
        }
    }
    let ghost before = spend_events(hist@, hist@, midnight as int, false);
    let ghost today = today_events(hist@, midnight as int, counter_of(live), now as int);
    assert(obs@ =~= today);
    let mut total: i64 = 0;
    let mut j: usize = 0;
    while j < obs.len()
        invariant
            j <= keys_in(today).len(),
            subs.wf(),
            subs.window_log() == window_events(hist@),
            pre.wf(),
            obs.wf(),
            pre@ == before,
            obs@ == today,
            charges(hist@, before, today, j as nat) >= 0,
            total == clamp_i64(charges(hist@, before, today, j as nat)),
        decreases keys_in(today).len() - j,
    {
        let series = obs.series(j);
        let first = pre.points(series.key.as_str());
        let c = session_charge(&subs, series.key.as_str(), first, &series.points);
        total = saturate(total as i128 + c as i128);
        j = j + 1;
    }
    DaySpend { total, sessions: obs.len() }
}

// ---------------------------------------------------------------------------------------
// The burn rate
// ---------------------------------------------------------------------------------------

/// The fitted burn rate plus the portion of it that is well-enough evidenced to predict
/// from. The budget warning must not extrapolate a seconds-long spike, but the display
/// figure should still show it.
#[derive(Clone, Copy, PartialEq, Eq, Debug, Structural)]
pub struct DayRate {
    /// Total observed burn across sessions — the display figure.
    pub per_hr: Micros,
    /// Burn from sessions whose own fit spans at least [`MIN_WARN_SPAN_SECS`] — what the
    /// budget ETA may be computed from. A per-session criterion: summing first and gating
    /// on the best single span would let one long-running session vouch for another's
    /// 60-second spike.
    pub warn_per_hr: Micros,
}

/// Minimum time base for a per-session fit — a shorter span divides a real dollar delta by
/// seconds and reads as an absurd $/h spike (e.g. right after midnight, or a live point
/// landing moments after a logged sample).
pub const MIN_FIT_SPAN_SECS: i64 = 60;

/// A session's fit must span this long before the *predictive* budget warning may
/// extrapolate from it. Spend arrives in per-request lumps ≥ a throttle
/// interval apart, so a single expensive request over a few minutes reads as an absurd
/// hourly rate; percentages in subscription mode move smoothly, dollars don't.
pub const MIN_WARN_SPAN_SECS: i64 = 900;

/// Whether a sample belongs to its session's current run within the trailing window. A sample
/// from before the session's last windows would drag the shadow climb across that phase into
/// the slope.
pub open spec fn in_current_run(hist: Seq<Sample>, s: Sample, window: int, now: int) -> bool {
    &&& attributable(hist, s)
    &&& now - s.t * UNIT <= window
    &&& !(window_before(windows_in(hist, sample_key(s)->0), whole_secs(now) as int) matches Some(w)
        && s.t <= w)
}

pub open spec fn run_events(hist: Seq<Sample>, part: Seq<Sample>, window: int, now: int) -> Seq<
    Event,
>
    decreases part.len(),
{
    if part.len() == 0 {
        Seq::empty()
    } else {
        let before = run_events(hist, part.drop_last(), window, now);
        let s = part.last();
        if in_current_run(hist, s, window, now) {
            before.push((sample_key(s)->0, (s.t, s.usd->0)))
        } else {
            before
        }
    }
}

/// What one session's fit is made over: its samples, and its counter now. The live payload
/// shows the counter of the session that is rendering; that of any other cannot have fallen,
/// so it is taken to stand where it was last seen.
pub open spec fn fitted(p: Seq<Point>, rendering: bool, live: Option<i64>, now: i128) -> Seq<
    Reading,
> {
    let samples = in_micros(p);
    let sorted = by_moment(
        match live {
            Some(u) => samples.push((now, u)),
            None => samples,
        },
    );
    if !rendering && sorted.len() > 0 && sorted.last().0 < now {
        sorted.push((now, sorted.last().1))
    } else {
        sorted
    }
}

/// The time base of a fit.
pub open spec fn fit_span(p: Seq<Reading>) -> int {
    p.last().0 - p[0].0
}

/// A session's own burn, if its fit has a time base to stand on.
pub open spec fn fit_rate(p: Seq<Reading>) -> Option<int> {
    if p.len() < 2 || fit_span(p) < MIN_FIT_SPAN_SECS * UNIT {
        None
    } else {
        match slope(readings(p)) {
            Some(r) => Some(
                if r > 0 {
                    r
                } else {
                    0
                },
            ),
            None => None,
        }
    }
}

/// The fit of the session `k`.
pub open spec fn session_fit(
    hist: Seq<Sample>,
    live: Option<LiveCounter>,
    window: int,
    now: i64,
    k: Seq<char>,
) -> Seq<Reading> {
    let rendering = live_key(live) == Some(k);
    fitted(
        points_of(run_events(hist, hist, window, now as int), k),
        rendering,
        if rendering && live_counts(hist, live, now as int) {
            Some(live->0.usd)
        } else {
            None
        },
        now as i128,
    )
}

/// The burn of the first `n` sessions, how much of it may be predicted from, and how many of
/// them have a fit.
pub open spec fn rates(hist: Seq<Sample>, live: Option<LiveCounter>, window: int, now: i64, n: nat) -> (
    int,
    int,
    nat,
)
    decreases n,
{
    if n == 0 {
        (0, 0, 0)
    } else {
        let (all, warn, fits) = rates(hist, live, window, now, (n - 1) as nat);
        let k = keys_in(run_events(hist, hist, window, now as int))[n - 1];
        let p = session_fit(hist, live, window, now, k);
        match fit_rate(p) {
            None => (all, warn, fits),
            Some(r) => (
                all + r,
                warn + (if fit_span(p) >= MIN_WARN_SPAN_SECS * UNIT {
                    r
                } else {
                    0
                }),
                fits + 1,
            ),
        }
    }
}

/// The burn rate across sessions; `None` where no session has a fit.
pub open spec fn day_rate_of(hist: Seq<Sample>, live: Option<LiveCounter>, window: int, now: i64) -> Option<
    (int, int),
> {
    let n = keys_in(run_events(hist, hist, window, now as int)).len();
    let (all, warn, fits) = rates(hist, live, window, now, n);
    if fits > 0 {
        Some((clamp_i64(all), clamp_i64(warn)))
    } else {
        None
    }
}

fn fit_readings(points: &Vec<Point>, rendering: bool, live: Option<Micros>, now: Micros) -> (r: Vec<
    Reading,
>)
    ensures
        r@ == fitted(points@, rendering, live, now as i128),
{
    let mut v: Vec<Reading> = Vec::new();
    let mut i: usize = 0;
    let ghost all = in_micros(points@);
    assert(all.take(0) =~= Seq::<Reading>::empty());
    while i < points.len()
        invariant
            i <= points@.len(),
            all == in_micros(points@),
            v@ == by_moment(all.take(i as int)),
        decreases points@.len() - i,
    {
        assert(all.take(i + 1).drop_last() =~= all.take(i as int));
        assert(all.take(i + 1).last() == all[i as int]);
        insert_reading(&mut v, (micros_at(points[i].0), points[i].1));
        i = i + 1;
    }
    assert(all.take(i as int) =~= all);
    if let Some(u) = live {
        assert(all.push((now as i128, u)).drop_last() =~= all);
        insert_reading(&mut v, (now as i128, u));
    }
    if !rendering && v.len() > 0 {
        let last: Reading = v[v.len() - 1];
        if last.0 < now as i128 {
            v.push((now as i128, last.1));
        }
    }
    v
}

/// A session's burn, and whether it may be predicted from.
fn session_rate(p: &Vec<Reading>) -> (r: Option<(i64, bool)>)
    requires
        forall|j: int|
            0 <= j < p@.len() ==> i64::MIN * UNIT <= (#[trigger] p@[j]).0 <= i64::MAX * UNIT,
    ensures
        match fit_rate(p@) {
            Some(v) => r matches Some((x, warn)) && x == v && x >= 0 && warn == (fit_span(p@)
                >= MIN_WARN_SPAN_SECS * UNIT),
            None => r is None,
        },
{
    if p.len() < 2 {
        return None;
    }
    let span: i128 = p[p.len() - 1].0 - p[0].0;
    if span < micros_at(MIN_FIT_SPAN_SECS) {
        return None;
    }
    match slope_per_hr(p.as_slice()) {
        None => None,
        Some(v) => Some(
            (
                if v > 0 {
                    v
                } else {
                    0
                },
                span >= micros_at(MIN_WARN_SPAN_SECS),
            ),
        ),
    }
}

proof fn lemma_fitted_range(p: Seq<Point>, rendering: bool, live: Option<i64>, now: i64)
    ensures
        forall|j: int|
            0 <= j < fitted(p, rendering, live, now as i128).len() ==> i64::MIN * UNIT <= (
            #[trigger] fitted(p, rendering, live, now as i128)[j]).0 <= i64::MAX * UNIT,
{
    broadcast use vstd::seq_lib::group_to_multiset_ensures;

    let samples = in_micros(p);
    let all = match live {
        Some(u) => samples.push((now as i128, u)),
        None => samples,
    };
    let sorted = by_moment(all);
    sorting_orders_and_keeps(all);
    assert forall|j: int| 0 <= j < sorted.len() implies i64::MIN * UNIT <= (
    #[trigger] sorted[j]).0 <= i64::MAX * UNIT by {
        assert(sorted.to_multiset().count(sorted[j]) > 0);
        assert(all.contains(sorted[j]));
        let i = all.index_of(sorted[j]);
        if i < samples.len() {
            assert(all[i] == samples[i]);
        }
    }
}

/// $/hr across sessions over the trailing `window` (microseconds): each session's own samples
/// (plus the live point) are fitted independently and the slopes summed. Fitting per session —
/// rather than one machine-wide cumulative series — keeps a session's *accrued* spend from
/// entering the fit as an instantaneous step when it first appears mid-window, which would
/// otherwise read as a huge current burn. Cumulative counters make each per-session slope
/// immune to day boundaries and baselines.
///
/// Every non-live session also gets a synthetic flat point at `now`: its counter cannot
/// have decreased, and without the flat tail a session that exited after a burst would
/// keep reporting that burst as *current* burn until its samples aged out of the window.
/// If such a session is in fact alive but unsampled, the flat tail undercounts — the
/// declared bias.
pub fn day_rate(hist: &[Sample], live: Option<&Live>, window: i128, now: Micros) -> (r: Option<
    DayRate,
>)
    ensures
        match day_rate_of(hist@, counter_of(live), window as int, now) {
            Some((all, warn)) => r matches Some(d) && d.per_hr == all && d.warn_per_hr == warn,
            None => r is None,
        },
{
    let subs = SubSessions::build(hist);
    let secs = secs_of(now);
    let rendering = match live {
        Some(lv) => session_key(lv.sid),
        None => None,
    };
    let live_usd: Option<Micros> = match (live, &rendering) {
        (Some(lv), Some(k)) => if subs.active_at(k.as_str(), secs) {
            None
        } else {
            Some(lv.usd)
        },
        _ => None,
    };
    let mut runs = BySession::new();
    let mut i: usize = 0;
    assert(hist@.take(0) =~= Seq::<Sample>::empty());
    while i < hist.len()
        invariant
            i <= hist@.len(),
            secs == whole_secs(now as int),
            subs.wf(),
            subs.window_log() == window_events(hist@),
            runs.wf(),
            runs@ == run_events(hist@, hist@.take(i as int), window as int, now as int),
        decreases hist@.len() - i,
    {
        let s = &hist[i];
        assert(hist@.take(i + 1).drop_last() =~= hist@.take(i as int));
        assert(hist@.take(i + 1).last() == *s);
        if s.api && now as i128 - micros_at(s.t) <= window {
            if let (Some(u), Some(k)) = (s.usd, key_of_sample(s)) {
                let stale = match subs.last_window_at(k.as_str(), secs) {
                    Some(w) => s.t <= w,
                    None => false,
                };
                if !stale && !subs.active_at(k.as_str(), s.t) {
                    runs.add(k.as_str(), s.t, u);
                }
            }
        }
        i = i + 1;
    }
    assert(hist@.take(i as int) =~= hist@);
    let ghost events = run_events(hist@, hist@, window as int, now as int);
    let mut total: i64 = 0;
    let mut warn_total: i64 = 0;
    let mut any = false;
    let mut j: usize = 0;
    while j < runs.len()
        invariant
            j <= keys_in(events).len(),
            events == run_events(hist@, hist@, window as int, now as int),
            runs.wf(),
            runs@ == events,
            sid_text(rendering) == live_key(counter_of(live)),
            live_counts(hist@, counter_of(live), now as int) ==> live_usd == Some(live->0.usd),
            !live_counts(hist@, counter_of(live), now as int) ==> live_usd is None,
            ({
                let (all, warn, fits) = rates(hist@, counter_of(live), window as int, now, j as nat);
                &&& all >= 0 && warn >= 0
                &&& total == clamp_i64(all)
                &&& warn_total == clamp_i64(warn)
                &&& any == (fits > 0)
            }),
        decreases keys_in(events).len() - j,
    {
        let series = runs.series(j);
        let same = match &rendering {
            Some(k) => *k == series.key,
            None => false,
        };
        let at_now = if same {
            live_usd
        } else {
            None
        };
        let p = fit_readings(&series.points, same, at_now, now);
        proof {
            lemma_fitted_range(series.points@, same, at_now, now);
            assert(p@ == session_fit(hist@, counter_of(live), window as int, now, series.key@));
        }
        if let Some((rate, warnable)) = session_rate(&p) {
            total = saturate(total as i128 + rate as i128);
            if warnable {
                warn_total = saturate(warn_total as i128 + rate as i128);
            }
            any = true;
        }
        j = j + 1;
    }
    if any {
        Some(DayRate { per_hr: total, warn_per_hr: warn_total })
    } else {
        None
    }
}

// ---------------------------------------------------------------------------------------
// The daily budget
// ---------------------------------------------------------------------------------------

/// A budget as it is configured: a finite number above zero, whitespace around it aside.
pub open spec fn budget_of(v: Seq<char>) -> Option<i64> {
    positive_of(trimmed(v))
}

/// Reads a daily budget (USD, a plain number).
pub fn daily_budget_from(v: &str) -> (r: Option<Micros>)
    ensures
        r == budget_of(v@),
{
    read_positive(trim_chars(v).as_slice())
}

/// Burn below this reads as idle on both surfaces (the report prints `~idle`, the status
/// line suppresses the `↑` readout) — one threshold so the two can't disagree.
pub const IDLE_RATE_PER_HR: i64 = 5_000;

/// Burn up to this is too little to predict a budget from.
pub const NEGLIGIBLE_PER_HR: i64 = 10_000;

/// How today's spend stands against the daily budget — the single decision both renderers
/// format in their own style.
#[derive(Clone, Copy, PartialEq, Eq, Debug, Structural)]
pub enum BudgetOutcome {
    /// Already at/over the budget (needs no rate to know).
    Over,
    /// At the well-evidenced portion of the current rate, the budget lands in `eta_secs`,
    /// before the midnight rollover.
    HitsBudget { eta_secs: i64 },
    /// The day rolls over before the budget would be hit (or the burn is negligible, or
    /// too thinly evidenced to predict from).
    RollsOverFirst,
}

/// Seconds until spend that is at `today` and grows at `per_hr` reaches the budget.
pub open spec fn budget_eta(today: int, budget: int, per_hr: int) -> Held {
    held_eta(held_gap(budget, today), per_hr)
}

/// Whether a time that is above zero ends before midnight.
pub open spec fn hits_before(eta: Held, next_midnight: int, now: int) -> bool {
    eta.digits > 0 && eta.below(held_gap(clamp_i64(next_midnight * UNIT), now))
}

pub open spec fn outcome(
    today: int,
    budget: int,
    rate: Option<DayRate>,
    next_midnight: int,
    now: int,
) -> BudgetOutcome {
    if today >= budget {
        BudgetOutcome::Over
    } else {
        match rate {
            Some(r) if r.warn_per_hr > NEGLIGIBLE_PER_HR && hits_before(
                budget_eta(today, budget, r.warn_per_hr as int),
                next_midnight,
                now,
            ) => BudgetOutcome::HitsBudget {
                eta_secs: clamp_i64(
                    budget_eta(today, budget, r.warn_per_hr as int).whole(),
                ) as i64,
            },
            _ => BudgetOutcome::RollsOverFirst,
        }
    }
}

pub fn budget_outcome(
    today: Micros,
    budget: Micros,
    rate: Option<DayRate>,
    next_midnight: i64,
    now: Micros,
) -> (r: BudgetOutcome)
    ensures
        r == outcome(today as int, budget as int, rate, next_midnight as int, now as int),
{
    if today >= budget {
        return BudgetOutcome::Over;
    }
    if let Some(r) = rate {
        if r.warn_per_hr > NEGLIGIBLE_PER_HR {
            let eta = eta_at(gap_of(budget, today), r.warn_per_hr);
            let left = gap_of(saturate(micros_at(next_midnight)), now);
            if eta.digits > 0 && eta.is_below(left) {
                return BudgetOutcome::HitsBudget { eta_secs: eta.whole() };
            }
        }
    }
    BudgetOutcome::RollsOverFirst
}

/// What the day line warns of.
pub open spec fn budget_warning(
    today: int,
    budget: Option<i64>,
    rate: Option<DayRate>,
    next_midnight: int,
    now: int,
) -> Option<Seq<char>> {
    match budget {
        None => None,
        Some(b) => match outcome(today, b as int, rate, next_midnight, now) {
            BudgetOutcome::Over => Some("⚠ over budget"@),
            BudgetOutcome::HitsBudget { eta_secs } => Some("⚠ budget "@ + dur_text(eta_secs as int)),
            BudgetOutcome::RollsOverFirst => None,
        },
    }
}

/// The burn as the day line shows it.
pub open spec fn spend_body(rate: Option<DayRate>) -> Option<Seq<char>> {
    match rate {
        Some(r) if r.per_hr > IDLE_RATE_PER_HR => Some(
            "↑"@ + usd_rate_text(r.per_hr as int) + "/h"@,
        ),
        _ => None,
    }
}

/// Inline burn readout for the day line. Returns `(plain, coloured)`; `plain` is used only
/// for width measurement. The over-budget flag needs no rate, so it renders even when the
/// history is too thin to fit one (fresh install, first minutes of a day).
pub fn spend_suffix(
    today: Micros,
    budget: Option<Micros>,
    rate: Option<DayRate>,
    next_midnight: i64,
    now: Micros,
) -> (r: (String, String))
    ensures
        ({
            let warn = budget_warning(
                today as int,
                budget,
                rate,
                next_midnight as int,
                now as int,
            );
            &&& r.0@ == suffix_plain(spend_body(rate), warn)
            &&& r.1@ == suffix_colored(spend_body(rate), warn)
        }),
{
    let warn: Option<String> = match budget {
        None => None,
        Some(b) => match budget_outcome(today, b, rate, next_midnight, now) {
            BudgetOutcome::Over => Some("⚠ over budget".to_owned()),
            BudgetOutcome::HitsBudget { eta_secs } => {
                let mut s = "⚠ budget ".to_owned();
                s.append(fmt_dur(eta_secs).as_str());
                Some(s)
            },
            BudgetOutcome::RollsOverFirst => None,
        },
    };
    let body: Option<String> = match rate {
        Some(r) => if r.per_hr > IDLE_RATE_PER_HR {
            let mut s = "↑".to_owned();
            s.append(fmt_usd_rate(r.per_hr).as_str());
            s.append("/h");
            Some(s)
        } else {
            None
        },
        None => None,
    };
    suffix_pair(body, warn)
}

// ---------------------------------------------------------------------------------------
// Laws of the day figure
// ---------------------------------------------------------------------------------------

proof fn lemma_charge_is_not_negative(windows: Seq<Point>, pre: Seq<Point>, obs: Seq<Point>)
    ensures
        charge(windows, pre, obs) >= 0,
{
    let p = by_moment(in_secs(obs));
    lemma_tally(windows, p, baseline(windows, pre, p[0]), p.len());
}

proof fn lemma_charges_are_not_negative(
    hist: Seq<Sample>,
    pre: Seq<Event>,
    today: Seq<Event>,
    n: nat,
)
    ensures
        charges(hist, pre, today, n) >= 0,
    decreases n,
{
    if n > 0 {
        lemma_charges_are_not_negative(hist, pre, today, (n - 1) as nat);
        let k = keys_in(today)[n - 1];
        lemma_charge_is_not_negative(windows_in(hist, k), points_of(pre, k), points_of(today, k));
    }
}

/// The day figure is never negative.
pub proof fn day_total_is_not_negative(
    hist: Seq<Sample>,
    midnight: int,
    live: Option<LiveCounter>,
    now: int,
)
    ensures
        day_total(hist, midnight, live, now) >= 0,
{
    let today = today_events(hist, midnight, live, now);
    lemma_charges_are_not_negative(
        hist,
        spend_events(hist, hist, midnight, false),
        today,
        keys_in(today).len(),
    );
}

/// A session seen once today, with nothing known of it before, is present but is charged
/// nothing: what its counter already held is not provably today's.
pub proof fn one_observation_is_not_spend(windows: Seq<Point>, p: Point)
    ensures
        charge(windows, Seq::empty(), seq![p]) == 0,
{
    let obs = in_secs(seq![p]);
    let head = obs.drop_last();
    assert(head =~= Seq::<Reading>::empty());
    assert(by_moment(head) =~= Seq::<Reading>::empty());
    assert(by_moment(obs) =~= seq![obs.last()]);
}

/// An observation on the far side of a subscription phase adds nothing by itself, however far
/// the counter climbed in between: that climb is the plan's estimate, not money.
pub proof fn a_subscription_phase_adds_nothing(
    windows: Seq<Point>,
    p: Seq<Reading>,
    base: int,
    n: nat,
)
    requires
        2 <= n <= p.len(),
        window_between(windows, p[n - 2].0 as int, p[n - 1].0 as int),
    ensures
        ({
            let a = tally(windows, p, base, (n - 1) as nat);
            let b = tally(windows, p, base, n);
            b.closed + movement(b) == a.closed + movement(a)
        }),
{
}

/// With counters that only climb, a session is never charged more than its counter moved
/// since the baseline, whatever phases lie in between.
pub proof fn a_session_is_never_charged_more_than_its_climb(
    windows: Seq<Point>,
    p: Seq<Reading>,
    base: int,
    n: nat,
)
    requires
        1 <= n <= p.len(),
        base <= p[0].1,
        forall|i: int, j: int| 0 <= i <= j < n ==> (#[trigger] p[i]).1 <= (#[trigger] p[j]).1,
    ensures
        ({
            let t = tally(windows, p, base, n);
            &&& t.closed + movement(t) <= p[n - 1].1 - base
            &&& t.base <= t.top == p[n - 1].1
        }),
    decreases n,
{
    if n > 1 {
        a_session_is_never_charged_more_than_its_climb(windows, p, base, (n - 1) as nat);
        assert(p[n - 2].1 <= p[n - 1].1);
    }
}

/// Without a subscription phase among its observations a session is charged the whole climb
/// of its counter since the baseline: the highest counter seen, whatever order it was listed
/// in, less where the day started.
pub proof fn an_unbroken_run_is_charged_in_full(
    p: Seq<Reading>,
    base: int,
    n: nat,
    windows: Seq<Point>,
)
    requires
        1 <= n <= p.len(),
        base <= p[0].1,
        forall|i: int|
            1 <= i < n ==> !window_between(windows, p[i - 1].0 as int, (#[trigger] p[i]).0 as int),
    ensures
        ({
            let t = tally(windows, p, base, n);
            &&& t.closed == 0 && t.base == base
            &&& t.closed + movement(t) == t.top - base
            &&& forall|i: int| 0 <= i < n ==> (#[trigger] p[i]).1 <= t.top
            &&& exists|i: int| 0 <= i < n && (#[trigger] p[i]).1 == t.top
        }),
    decreases n,
{
    if n > 1 {
        an_unbroken_run_is_charged_in_full(p, base, (n - 1) as nat, windows);
        let t = tally(windows, p, base, (n - 1) as nat);
        let i = choose|i: int| 0 <= i < n - 1 && (#[trigger] p[i]).1 == t.top;
        assert(p[i].1 == t.top);
        assert(p[n - 1].1 == p[n - 1].1);
        assert(p[0].1 <= t.top);
    } else {
        assert(p[0].1 == tally(windows, p, base, n).top);
    }
}

pub proof fn lemma_highest(p: Seq<Point>)
    requires
        p.len() > 0,
    ensures
        p.contains(highest(p)),
        forall|q: Point| #[trigger] p.contains(q) ==> !better(q, highest(p)),
    decreases p.len(),
{
    if p.len() == 1 {
        assert(p[0] == highest(p));
    } else {
        let head = p.drop_last();
        lemma_highest(head);
        assert(p =~= head.push(p.last()));
        lemma_push_contains(head, p.last(), highest(p));
        assert forall|q: Point| #[trigger] p.contains(q) implies !better(q, highest(p)) by {
            lemma_push_contains(head, p.last(), q);
        }
    }
}

/// The baseline before midnight does not depend on the order in which the samples are listed.
pub proof fn the_baseline_ignores_the_order_of_samples(a: Seq<Point>, b: Seq<Point>)
    requires
        a.to_multiset() == b.to_multiset(),
        a.len() > 0,
    ensures
        highest(a) == highest(b),
{
    broadcast use vstd::seq_lib::group_to_multiset_ensures;

    assert(a.to_multiset().len() == a.len() && b.to_multiset().len() == b.len());
    lemma_highest(a);
    lemma_highest(b);
    assert(a.to_multiset().count(highest(a)) > 0);
    assert(b.contains(highest(a)));
    assert(b.to_multiset().count(highest(b)) > 0);
    assert(a.contains(highest(b)));
}

proof fn lemma_same_windows(a: Seq<Sample>, b: Seq<Sample>, part: Seq<Sample>, midnight: int)
    requires
        window_events(a) == window_events(b),
    ensures
        spend_events(a, part, midnight, true) == spend_events(b, part, midnight, true),
        spend_events(a, part, midnight, false) == spend_events(b, part, midnight, false),
    decreases part.len(),
{
    if part.len() > 0 {
        lemma_same_windows(a, b, part.drop_last(), midnight);
    }
}

proof fn lemma_same_charges(
    a: Seq<Sample>,
    b: Seq<Sample>,
    pre: Seq<Event>,
    today: Seq<Event>,
    n: nat,
)
    requires
        window_events(a) == window_events(b),
    ensures
        charges(a, pre, today, n) == charges(b, pre, today, n),
    decreases n,
{
    if n > 0 {
        lemma_same_charges(a, b, pre, today, (n - 1) as nat);
    }
}

/// A sample without the flag never counts as spend: logging one that reports no windows
/// leaves the day figure, and the sessions that make it up, as they were.
pub proof fn unflagged_samples_never_count_as_spend(
    hist: Seq<Sample>,
    s: Sample,
    midnight: int,
    live: Option<LiveCounter>,
    now: int,
)
    requires
        !s.api,
        !on_subscription(s),
    ensures
        today_events(hist.push(s), midnight, live, now) == today_events(hist, midnight, live, now),
        day_total(hist.push(s), midnight, live, now) == day_total(hist, midnight, live, now),
{
    let more = hist.push(s);
    assert(more.drop_last() =~= hist);
    assert(window_events(more) == window_events(hist));
    lemma_same_windows(more, hist, hist, midnight);
    let pre = spend_events(hist, hist, midnight, false);
    let today = today_events(hist, midnight, live, now);
    lemma_same_charges(more, hist, pre, today, keys_in(today).len());
}

pub proof fn lemma_warn_within(hist: Seq<Sample>, live: Option<LiveCounter>, window: int, now: i64, n: nat)
    ensures
        0 <= rates(hist, live, window, now, n).1 <= rates(hist, live, window, now, n).0,
    decreases n,
{
    if n > 0 {
        lemma_warn_within(hist, live, window, now, (n - 1) as nat);
    }
}

/// The part of the burn that a warning may rest on never exceeds the burn shown, and neither
/// is negative.
pub proof fn the_warned_rate_is_part_of_the_shown_rate(
    hist: Seq<Sample>,
    live: Option<LiveCounter>,
    window: int,
    now: i64,
)
    ensures
        day_rate_of(hist, live, window, now) matches Some((all, warn)) ==> 0 <= warn <= all,
{
    lemma_warn_within(
        hist,
        live,
        window,
        now,
        keys_in(run_events(hist, hist, window, now as int)).len(),
    );
}

/// Spend at or above the budget is flagged with any rate and with none.
pub proof fn over_budget_needs_no_rate(
    today: int,
    budget: i64,
    rate: Option<DayRate>,
    next_midnight: int,
    now: int,
)
    requires
        today >= budget,
    ensures
        budget_warning(today, Some(budget), rate, next_midnight, now) == Some("⚠ over budget"@),
{
}

/// A budget is only announced to be hit before the day rolls over.
pub proof fn a_budget_warning_lands_before_midnight(
    today: int,
    budget: int,
    rate: Option<DayRate>,
    next_midnight: int,
    now: i64,
    eta_secs: i64,
)
    requires
        outcome(today, budget, rate, next_midnight, now as int) == (BudgetOutcome::HitsBudget {
            eta_secs,
        }),
        i64::MIN <= next_midnight * UNIT <= i64::MAX,
    ensures
        today < budget,
        now + eta_secs * UNIT < next_midnight * UNIT,
{
    let per_hr = rate->0.warn_per_hr as int;
    let e = budget_eta(today, budget, per_hr);
    lemma_eta_wf(held_gap(budget, today), per_hr);
    lemma_ends_before(e, next_midnight, now as int);
}

} // verus!
