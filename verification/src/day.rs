//! Laws of the day figure and its burn over whole histories: how the samples are listed does not
//! matter, and sessions that have nothing to do with one another add up.

use vstd::prelude::*;

use crate::burn::Reading;
use crate::history::{
    lemma_session_points, near_window, on_subscription, sample_key, window_between, window_events,
    windows_in, Sample, SUB_HOLD_SECS,
};
use crate::num::clamp_i64;
use crate::series::{
    keys_in, lemma_keys_distinct, lemma_keys_have_points, lemma_push_contains, points_of, Event,
    Point,
};
use crate::spend::{
    attributable, baseline, better, by_moment, charge, charges, day_rate_of, day_total, highest,
    in_current_run, in_secs, insert_by_moment, lemma_highest, lemma_warn_within, live_counts,
    live_key, rates, run_events, session_fit, spend_events, tally, today_events, whole_secs,
    LiveCounter,
};

verus! {

// ---------------------------------------------------------------------------------------
// Sessions apart
// ---------------------------------------------------------------------------------------

/// Whether no session has a sample in both histories.
pub open spec fn share_no_session(a: Seq<Sample>, b: Seq<Sample>) -> bool {
    forall|i: int, j: int|
        0 <= i < a.len() && 0 <= j < b.len() && sample_key(a[i]) is Some ==> sample_key(
            #[trigger] a[i],
        ) != sample_key(#[trigger] b[j])
}

/// Whether `hist` holds a sample of the session `k`.
spec fn seen_in(hist: Seq<Sample>, k: Seq<char>) -> bool {
    exists|i: int| 0 <= i < hist.len() && sample_key(#[trigger] hist[i]) == Some(k)
}

proof fn lemma_joined_windows(a: Seq<Sample>, b: Seq<Sample>)
    ensures
        window_events(a + b) == window_events(a) + window_events(b),
    decreases b.len(),
{
    if b.len() > 0 {
        lemma_joined_windows(a, b.drop_last());
        assert((a + b).drop_last() =~= a + b.drop_last());
        assert(window_events(a + b) =~= window_events(a) + window_events(b));
    } else {
        assert(a + b =~= a);
        assert(window_events(a) + window_events(b) =~= window_events(a));
    }
}

pub(crate) proof fn lemma_joined_points(a: Seq<Event>, b: Seq<Event>, k: Seq<char>)
    ensures
        points_of(a + b, k) == points_of(a, k) + points_of(b, k),
    decreases b.len(),
{
    if b.len() > 0 {
        lemma_joined_points(a, b.drop_last(), k);
        assert((a + b).drop_last() =~= a + b.drop_last());
        assert(points_of(a + b, k) =~= points_of(a, k) + points_of(b, k));
    } else {
        assert(a + b =~= a);
        assert(points_of(a, k) + points_of(b, k) =~= points_of(a, k));
    }
}

/// A session without samples has no windows.
proof fn lemma_unseen(hist: Seq<Sample>, k: Seq<char>)
    requires
        !seen_in(hist, k),
    ensures
        windows_in(hist, k) == Seq::<Point>::empty(),
{
    let w = windows_in(hist, k);
    if w.len() > 0 {
        assert(w.contains(w[0]));
        lemma_session_points(hist, k, w[0]);
        let s = choose|s: Sample| #[trigger] hist.contains(s) && sample_key(s) == Some(k);
        assert(sample_key(hist[hist.index_of(s)]) == Some(k));
    }
    assert(w =~= Seq::<Point>::empty());
}

/// A session's windows are those of the history that holds it.
proof fn lemma_own_windows(a: Seq<Sample>, b: Seq<Sample>, k: Seq<char>)
    ensures
        !seen_in(b, k) ==> windows_in(a + b, k) == windows_in(a, k),
        !seen_in(a, k) ==> windows_in(a + b, k) == windows_in(b, k),
{
    lemma_joined_windows(a, b);
    lemma_joined_points(window_events(a), window_events(b), k);
    let none = Seq::<Point>::empty();
    assert(windows_in(a, k) + none =~= windows_in(a, k));
    assert(none + windows_in(b, k) =~= windows_in(b, k));
    if !seen_in(b, k) {
        lemma_unseen(b, k);
    }
    if !seen_in(a, k) {
        lemma_unseen(a, k);
    }
}

proof fn lemma_same_run(
    whole: Seq<Sample>,
    own: Seq<Sample>,
    part: Seq<Sample>,
    window: int,
    now: int,
)
    requires
        forall|i: int|
            0 <= i < part.len() && sample_key(#[trigger] part[i]) is Some ==> windows_in(
                whole,
                sample_key(part[i])->0,
            ) == windows_in(own, sample_key(part[i])->0),
    ensures
        run_events(whole, part, window, now) == run_events(own, part, window, now),
    decreases part.len(),
{
    if part.len() > 0 {
        let head = part.drop_last();
        assert forall|i: int| 0 <= i < head.len() && sample_key(#[trigger] head[i]) is Some implies
            windows_in(whole, sample_key(head[i])->0) == windows_in(own, sample_key(head[i])->0) by {
            assert(head[i] == part[i]);
        }
        lemma_same_run(whole, own, head, window, now);
        let s = part[part.len() - 1];
        assert(in_current_run(whole, s, window, now) == in_current_run(own, s, window, now));
    }
}

proof fn lemma_joined_run(
    hist: Seq<Sample>,
    a: Seq<Sample>,
    b: Seq<Sample>,
    window: int,
    now: int,
)
    ensures
        run_events(hist, a + b, window, now) == run_events(hist, a, window, now) + run_events(
            hist,
            b,
            window,
            now,
        ),
    decreases b.len(),
{
    let ea = run_events(hist, a, window, now);
    let eb = run_events(hist, b, window, now);
    if b.len() > 0 {
        lemma_joined_run(hist, a, b.drop_last(), window, now);
        assert((a + b).drop_last() =~= a + b.drop_last());
        assert(run_events(hist, a + b, window, now) =~= ea + eb);
    } else {
        assert(a + b =~= a);
        assert(ea + eb =~= ea);
    }
}

proof fn lemma_run_keys(hist: Seq<Sample>, part: Seq<Sample>, window: int, now: int, k: Seq<char>)
    requires
        points_of(run_events(hist, part, window, now), k).len() > 0,
    ensures
        seen_in(part, k),
    decreases part.len(),
{
    if part.len() > 0 {
        let head = part.drop_last();
        let n = part.len() - 1;
        let before = run_events(hist, head, window, now);
        if sample_key(part[n]) != Some(k) {
            let last = (sample_key(part[n])->0, (part[n].t, part[n].usd->0));
            assert(before.push(last).drop_last() =~= before);
            lemma_run_keys(hist, head, window, now, k);
            let i = choose|i: int|
                0 <= i < head.len() && sample_key(#[trigger] head[i]) == Some(k);
            assert(sample_key(part[i]) == Some(k));
        }
    }
}

/// Sessions observed apart are listed one history after the other.
pub(crate) proof fn lemma_joined_keys(a: Seq<Event>, b: Seq<Event>)
    requires
        forall|k: Seq<char>|
            (#[trigger] points_of(a, k)).len() == 0 || points_of(b, k).len() == 0,
    ensures
        keys_in(a + b) == keys_in(a) + keys_in(b),
    decreases b.len(),
{
    if b.len() > 0 {
        let head = b.drop_last();
        let k = b.last().0;
        assert forall|x: Seq<char>|
            (#[trigger] points_of(a, x)).len() == 0 || points_of(head, x).len() == 0 by {
            assert(points_of(b, x).len() >= points_of(head, x).len());
        }
        lemma_joined_keys(a, head);
        assert((a + b).drop_last() =~= a + head);
        let ka = keys_in(a);
        let kb = keys_in(head);
        assert(points_of(b, k).len() > 0);
        assert(points_of(a, k).len() == 0);
        lemma_keys_have_points(a, k);
        assert((ka + kb).contains(k) == kb.contains(k)) by {
            if (ka + kb).contains(k) {
                let i = (ka + kb).index_of(k);
                if i < ka.len() {
                    assert(ka[i] == k);
                } else {
                    assert(kb[i - ka.len()] == k);
                }
            }
            if kb.contains(k) {
                let i = kb.index_of(k);
                assert((ka + kb)[ka.len() + i] == k);
            }
        }
        assert(keys_in(a + b) =~= ka + keys_in(b));
    } else {
        assert(a + b =~= a);
        assert(keys_in(a) + keys_in(b) =~= keys_in(a));
    }
}

proof fn lemma_joined_rates(
    a: Seq<Sample>,
    b: Seq<Sample>,
    window: int,
    now: i64,
    m: nat,
)
    requires
        share_no_session(a, b),
        m <= keys_in(run_events(b, b, window, now as int)).len(),
    ensures
        run_events(a + b, a + b, window, now as int) == run_events(a, a, window, now as int)
            + run_events(b, b, window, now as int),
        keys_in(run_events(a + b, a + b, window, now as int)) == keys_in(
            run_events(a, a, window, now as int),
        ) + keys_in(run_events(b, b, window, now as int)),
        ({
            let n = keys_in(run_events(a, a, window, now as int)).len();
            let (all, warn, fits) = rates(a + b, None, window, now, n + m);
            let (all_a, warn_a, fits_a) = rates(a, None, window, now, n);
            let (all_b, warn_b, fits_b) = rates(b, None, window, now, m);
            all == all_a + all_b && warn == warn_a + warn_b && fits == fits_a + fits_b
        }),
    decreases m,
{
    let whole = a + b;
    let ea = run_events(a, a, window, now as int);
    let eb = run_events(b, b, window, now as int);
    assert forall|k: Seq<char>| !(seen_in(a, k) && seen_in(b, k)) by {
        if seen_in(a, k) && seen_in(b, k) {
            let i = choose|i: int| 0 <= i < a.len() && sample_key(#[trigger] a[i]) == Some(k);
            let j = choose|j: int| 0 <= j < b.len() && sample_key(#[trigger] b[j]) == Some(k);
            assert(sample_key(a[i]) != sample_key(b[j]));
        }
    }
    assert forall|i: int| 0 <= i < a.len() && sample_key(#[trigger] a[i]) is Some implies windows_in(
        whole,
        sample_key(a[i])->0,
    ) == windows_in(a, sample_key(a[i])->0) by {
        let k = sample_key(a[i])->0;
        assert(seen_in(a, k));
        lemma_own_windows(a, b, k);
    }
    assert forall|i: int| 0 <= i < b.len() && sample_key(#[trigger] b[i]) is Some implies windows_in(
        whole,
        sample_key(b[i])->0,
    ) == windows_in(b, sample_key(b[i])->0) by {
        let k = sample_key(b[i])->0;
        assert(seen_in(b, k));
        lemma_own_windows(a, b, k);
    }
    lemma_same_run(whole, a, a, window, now as int);
    lemma_same_run(whole, b, b, window, now as int);
    lemma_joined_run(whole, a, b, window, now as int);
    assert forall|k: Seq<char>|
        (#[trigger] points_of(ea, k)).len() == 0 || points_of(eb, k).len() == 0 by {
        if points_of(ea, k).len() > 0 && points_of(eb, k).len() > 0 {
            lemma_run_keys(a, a, window, now as int, k);
            lemma_run_keys(b, b, window, now as int, k);
        }
    }
    lemma_joined_keys(ea, eb);
    let ka = keys_in(ea);
    let kb = keys_in(eb);
    let none = Seq::<Point>::empty();
    if m > 0 {
        lemma_joined_rates(a, b, window, now, (m - 1) as nat);
        let k = kb[m - 1];
        assert((ka + kb)[ka.len() + m - 1] == k);
        assert(kb.contains(k));
        lemma_keys_have_points(eb, k);
        lemma_joined_points(ea, eb, k);
        assert(points_of(ea, k).len() == 0);
        assert(points_of(ea, k) =~= none);
        assert(none + points_of(eb, k) =~= points_of(eb, k));
        assert(session_fit(whole, None, window, now, k) == session_fit(b, None, window, now, k));
    } else {
        lemma_first_rates(a, b, window, now, ka.len());
    }
}

proof fn lemma_first_rates(
    a: Seq<Sample>,
    b: Seq<Sample>,
    window: int,
    now: i64,
    n: nat,
)
    requires
        n <= keys_in(run_events(a, a, window, now as int)).len(),
        run_events(a + b, a + b, window, now as int) == run_events(a, a, window, now as int)
            + run_events(b, b, window, now as int),
        keys_in(run_events(a + b, a + b, window, now as int)) == keys_in(
            run_events(a, a, window, now as int),
        ) + keys_in(run_events(b, b, window, now as int)),
        forall|k: Seq<char>|
            (#[trigger] points_of(run_events(a, a, window, now as int), k)).len() == 0 || points_of(
                run_events(b, b, window, now as int),
                k,
            ).len() == 0,
    ensures
        rates(a + b, None, window, now, n) == rates(a, None, window, now, n),
    decreases n,
{
    if n > 0 {
        lemma_first_rates(a, b, window, now, (n - 1) as nat);
        let ea = run_events(a, a, window, now as int);
        let eb = run_events(b, b, window, now as int);
        let k = keys_in(ea)[n - 1];
        assert((keys_in(ea) + keys_in(eb))[n - 1] == k);
        assert(keys_in(ea).contains(k));
        lemma_keys_have_points(ea, k);
        lemma_joined_points(ea, eb, k);
        assert(points_of(ea, k) + points_of(eb, k) =~= points_of(ea, k));
        assert(session_fit(a + b, None, window, now, k) == session_fit(a, None, window, now, k));
    }
}

proof fn lemma_no_fit_no_rate(hist: Seq<Sample>, window: int, now: i64, n: nat)
    ensures
        rates(hist, None, window, now, n).2 == 0 ==> rates(hist, None, window, now, n) == (
            0int,
            0int,
            0nat,
        ),
    decreases n,
{
    if n > 0 {
        lemma_no_fit_no_rate(hist, window, now, (n - 1) as nat);
    }
}

/// Two burns together; one that there is no fit for adds nothing.
pub open spec fn added(a: Option<(int, int)>, b: Option<(int, int)>) -> Option<(int, int)> {
    match (a, b) {
        (Some(x), Some(y)) => Some((clamp_i64(x.0 + y.0), clamp_i64(x.1 + y.1))),
        (Some(x), None) => Some(x),
        (None, y) => y,
    }
}

/// The burn of histories that share no session adds up: what is shown, and what a warning may
/// rest on.
pub proof fn the_burn_of_separate_sessions_adds_up(
    a: Seq<Sample>,
    b: Seq<Sample>,
    window: int,
    now: i64,
)
    requires
        share_no_session(a, b),
    ensures
        day_rate_of(a + b, None, window, now) == added(
            day_rate_of(a, None, window, now),
            day_rate_of(b, None, window, now),
        ),
{
    let n = keys_in(run_events(a, a, window, now as int)).len();
    let m = keys_in(run_events(b, b, window, now as int)).len();
    lemma_joined_rates(a, b, window, now, m);
    lemma_warn_within(a, None, window, now, n);
    lemma_warn_within(b, None, window, now, m);
    lemma_no_fit_no_rate(a, window, now, n);
    lemma_no_fit_no_rate(b, window, now, m);
}

proof fn lemma_same_spend(
    whole: Seq<Sample>,
    own: Seq<Sample>,
    part: Seq<Sample>,
    midnight: int,
    today: bool,
)
    requires
        forall|i: int|
            0 <= i < part.len() && sample_key(#[trigger] part[i]) is Some ==> windows_in(
                whole,
                sample_key(part[i])->0,
            ) == windows_in(own, sample_key(part[i])->0),
    ensures
        spend_events(whole, part, midnight, today) == spend_events(own, part, midnight, today),
    decreases part.len(),
{
    if part.len() > 0 {
        let head = part.drop_last();
        assert forall|i: int| 0 <= i < head.len() && sample_key(#[trigger] head[i]) is Some implies
            windows_in(whole, sample_key(head[i])->0) == windows_in(own, sample_key(head[i])->0) by {
            assert(head[i] == part[i]);
        }
        lemma_same_spend(whole, own, head, midnight, today);
        assert(part.last() == part[part.len() - 1]);
    }
}

proof fn lemma_joined_spend(
    hist: Seq<Sample>,
    a: Seq<Sample>,
    b: Seq<Sample>,
    midnight: int,
    today: bool,
)
    ensures
        spend_events(hist, a + b, midnight, today) == spend_events(hist, a, midnight, today)
            + spend_events(hist, b, midnight, today),
    decreases b.len(),
{
    let ea = spend_events(hist, a, midnight, today);
    let eb = spend_events(hist, b, midnight, today);
    if b.len() > 0 {
        lemma_joined_spend(hist, a, b.drop_last(), midnight, today);
        assert((a + b).drop_last() =~= a + b.drop_last());
        assert(spend_events(hist, a + b, midnight, today) =~= ea + eb);
    } else {
        assert(a + b =~= a);
        assert(ea + eb =~= ea);
    }
}

proof fn lemma_spend_keys(
    hist: Seq<Sample>,
    part: Seq<Sample>,
    midnight: int,
    today: bool,
    k: Seq<char>,
)
    requires
        points_of(spend_events(hist, part, midnight, today), k).len() > 0,
    ensures
        seen_in(part, k),
    decreases part.len(),
{
    if part.len() > 0 {
        let head = part.drop_last();
        let n = part.len() - 1;
        let before = spend_events(hist, head, midnight, today);
        if sample_key(part[n]) != Some(k) {
            let last = (sample_key(part[n])->0, (part[n].t, part[n].usd->0));
            assert(before.push(last).drop_last() =~= before);
            lemma_spend_keys(hist, head, midnight, today, k);
            let i = choose|i: int|
                0 <= i < head.len() && sample_key(#[trigger] head[i]) == Some(k);
            assert(sample_key(part[i]) == Some(k));
        }
    }
}

/// Observations of two histories, by sessions that are in one of them only.
spec fn apart(
    a: Seq<Sample>,
    b: Seq<Sample>,
    ea: Seq<Event>,
    eb: Seq<Event>,
) -> bool {
    &&& forall|k: Seq<char>| (#[trigger] points_of(ea, k)).len() > 0 ==> windows_in(a + b, k)
        == windows_in(a, k)
    &&& forall|k: Seq<char>| (#[trigger] points_of(eb, k)).len() > 0 ==> windows_in(a + b, k)
        == windows_in(b, k)
}

spec fn no_common_points(ea: Seq<Event>, eb: Seq<Event>) -> bool {
    forall|k: Seq<char>| (#[trigger] points_of(ea, k)).len() == 0 || points_of(eb, k).len() == 0
}

proof fn lemma_joined_charges(
    a: Seq<Sample>,
    b: Seq<Sample>,
    pa: Seq<Event>,
    pb: Seq<Event>,
    ta: Seq<Event>,
    tb: Seq<Event>,
    n: nat,
)
    requires
        apart(a, b, ta, tb),
        no_common_points(ta, tb),
        no_common_points(ta, pb),
        no_common_points(pa, tb),
        n <= keys_in(ta).len() + keys_in(tb).len(),
    ensures
        keys_in(ta + tb) == keys_in(ta) + keys_in(tb),
        n <= keys_in(ta).len() ==> charges(a + b, pa + pb, ta + tb, n) == charges(a, pa, ta, n),
        n > keys_in(ta).len() ==> charges(a + b, pa + pb, ta + tb, n) == charges(
            a,
            pa,
            ta,
            keys_in(ta).len(),
        ) + charges(b, pb, tb, (n - keys_in(ta).len()) as nat),
    decreases n,
{
    lemma_joined_keys(ta, tb);
    if n > 0 {
        lemma_joined_charges(a, b, pa, pb, ta, tb, (n - 1) as nat);
        let (ka, kb) = (keys_in(ta), keys_in(tb));
        let k = (ka + kb)[n - 1];
        lemma_joined_points(ta, tb, k);
        lemma_joined_points(pa, pb, k);
        let none = Seq::<Point>::empty();
        if n <= ka.len() {
            assert(ka[n - 1] == k && ka.contains(k));
            lemma_keys_have_points(ta, k);
            assert(points_of(tb, k) =~= none && points_of(pb, k) =~= none);
            assert(points_of(ta, k) + none =~= points_of(ta, k));
            assert(points_of(pa, k) + none =~= points_of(pa, k));
        } else {
            assert(kb[n - 1 - ka.len()] == k && kb.contains(k));
            lemma_keys_have_points(tb, k);
            assert(points_of(ta, k).len() == 0);
            assert(points_of(ta, k) =~= none);
            assert(points_of(pa, k).len() == 0);
            assert(points_of(pa, k) =~= none);
            assert(none + points_of(tb, k) =~= points_of(tb, k));
            assert(none + points_of(pb, k) =~= points_of(pb, k));
            let m = (n - ka.len()) as nat;
            assert(charges(b, pb, tb, 0) == 0);
            assert(charges(b, pb, tb, m) == charges(b, pb, tb, (m - 1) as nat) + charge(
                windows_in(b, k),
                points_of(pb, k),
                points_of(tb, k),
            ));
        }
    }
}

/// The spend of histories that share no session adds up, the session that renders being one of the
/// second, or of neither: what was spent today, and how many sessions spent it.
pub proof fn the_spend_of_separate_sessions_adds_up(
    a: Seq<Sample>,
    b: Seq<Sample>,
    midnight: int,
    live: Option<LiveCounter>,
    now: int,
)
    requires
        share_no_session(a, b),
        forall|i: int|
            0 <= i < a.len() && live is Some && live->0.key is Some ==> sample_key(#[trigger] a[i])
                != live->0.key,
    ensures
        day_total(a + b, midnight, live, now) == day_total(a, midnight, None, now) + day_total(
            b,
            midnight,
            live,
            now,
        ),
        keys_in(today_events(a + b, midnight, live, now)).len() == keys_in(
            today_events(a, midnight, None, now),
        ).len() + keys_in(today_events(b, midnight, live, now)).len(),
{
    let whole = a + b;
    let (pa, pb) = (spend_events(a, a, midnight, false), spend_events(b, b, midnight, false));
    let (sa, sb) = (spend_events(a, a, midnight, true), spend_events(b, b, midnight, true));
    let tb = today_events(b, midnight, live, now);
    assert forall|k: Seq<char>| !(seen_in(a, k) && seen_in(b, k)) by {
        if seen_in(a, k) && seen_in(b, k) {
            let i = choose|i: int| 0 <= i < a.len() && sample_key(#[trigger] a[i]) == Some(k);
            let j = choose|j: int| 0 <= j < b.len() && sample_key(#[trigger] b[j]) == Some(k);
            assert(sample_key(a[i]) != sample_key(b[j]));
        }
    }
    assert forall|k: Seq<char>| live_key(live) == Some(k) implies !seen_in(a, k) by {
        if seen_in(a, k) {
            let i = choose|i: int| 0 <= i < a.len() && sample_key(#[trigger] a[i]) == Some(k);
            assert(sample_key(a[i]) != live->0.key);
        }
    }
    assert forall|i: int| 0 <= i < a.len() && sample_key(#[trigger] a[i]) is Some implies windows_in(
        whole,
        sample_key(a[i])->0,
    ) == windows_in(a, sample_key(a[i])->0) by {
        assert(seen_in(a, sample_key(a[i])->0));
        lemma_own_windows(a, b, sample_key(a[i])->0);
    }
    assert forall|i: int| 0 <= i < b.len() && sample_key(#[trigger] b[i]) is Some implies windows_in(
        whole,
        sample_key(b[i])->0,
    ) == windows_in(b, sample_key(b[i])->0) by {
        assert(seen_in(b, sample_key(b[i])->0));
        lemma_own_windows(a, b, sample_key(b[i])->0);
    }
    lemma_same_spend(whole, a, a, midnight, true);
    lemma_same_spend(whole, a, a, midnight, false);
    lemma_same_spend(whole, b, b, midnight, true);
    lemma_same_spend(whole, b, b, midnight, false);
    lemma_joined_spend(whole, a, b, midnight, true);
    lemma_joined_spend(whole, a, b, midnight, false);
    if live_key(live) is Some {
        let k = live_key(live)->0;
        lemma_own_windows(a, b, k);
        let x = (k, (whole_secs(now), live->0.usd));
        assert((sa + sb).push(x) =~= sa + sb.push(x));
    }
    assert(today_events(whole, midnight, live, now) == sa + tb);
    assert forall|k: Seq<char>| (#[trigger] points_of(tb, k)).len() > 0 implies !seen_in(a, k) by {
        if live_counts(b, live, now) {
            assert(tb.drop_last() =~= sb);
        }
        if live_key(live) != Some(k) {
            assert(points_of(sb, k).len() > 0);
            lemma_spend_keys(b, b, midnight, true, k);
        }
    }
    assert forall|k: Seq<char>| (#[trigger] points_of(sa, k)).len() > 0 implies seen_in(a, k) by {
        lemma_spend_keys(a, a, midnight, true, k);
    }
    assert forall|k: Seq<char>| (#[trigger] points_of(pa, k)).len() > 0 implies seen_in(a, k) by {
        lemma_spend_keys(a, a, midnight, false, k);
    }
    assert forall|k: Seq<char>| (#[trigger] points_of(pb, k)).len() > 0 implies seen_in(b, k) by {
        lemma_spend_keys(b, b, midnight, false, k);
    }
    assert forall|k: Seq<char>| (#[trigger] points_of(sa, k)).len() == 0 || points_of(pb, k).len()
        == 0 by {
        if points_of(sa, k).len() > 0 && points_of(pb, k).len() > 0 {
            assert(seen_in(a, k) && seen_in(b, k));
        }
    }
    assert forall|k: Seq<char>| (#[trigger] points_of(sa, k)).len() > 0 implies windows_in(whole, k)
        == windows_in(a, k) by {
        assert(seen_in(a, k));
        lemma_own_windows(a, b, k);
    }
    assert forall|k: Seq<char>| (#[trigger] points_of(tb, k)).len() > 0 implies windows_in(whole, k)
        == windows_in(b, k) by {
        lemma_own_windows(a, b, k);
    }
    lemma_joined_charges(a, b, pa, pb, sa, tb, keys_in(sa).len() + keys_in(tb).len());
}

// ---------------------------------------------------------------------------------------
// The order of the samples
// ---------------------------------------------------------------------------------------

/// Whether no two samples of one session were taken at the same time.
pub open spec fn distinct_moments(hist: Seq<Sample>) -> bool {
    forall|i: int, j: int|
        0 <= i < j < hist.len() && sample_key(hist[i]) is Some && sample_key(#[trigger] hist[i])
            == sample_key(#[trigger] hist[j]) ==> hist[i].t != hist[j].t
}

/// Whether no sample of the session that is rendering was taken this very second.
pub open spec fn live_moment_is_free(hist: Seq<Sample>, live: Option<LiveCounter>, now: int) -> bool {
    forall|i: int|
        0 <= i < hist.len() && live_key(live) is Some && sample_key(#[trigger] hist[i]) == live_key(
            live,
        ) ==> hist[i].t != whole_secs(now)
}

/// Whether two histories hold the same samples.
spec fn same_samples(a: Seq<Sample>, b: Seq<Sample>) -> bool {
    forall|s: Sample|
        #![trigger a.contains(s)]
        #![trigger b.contains(s)]
        a.contains(s) <==> b.contains(s)
}

spec fn same_points(a: Seq<Point>, b: Seq<Point>) -> bool {
    forall|p: Point|
        #![trigger a.contains(p)]
        #![trigger b.contains(p)]
        a.contains(p) <==> b.contains(p)
}

proof fn lemma_once<A>(s: Seq<A>, a: A)
    requires
        forall|i: int, j: int| 0 <= i < j < s.len() ==> !(s[i] == a && s[j] == a),
    ensures
        s.to_multiset().count(a) <= 1,
{
    broadcast use vstd::seq_lib::group_to_multiset_ensures;

    if s.contains(a) {
        let k = s.index_of(a);
        let rest = s.remove(k);
        assert(!rest.contains(a)) by {
            if rest.contains(a) {
                let i = rest.index_of(a);
                if i < k {
                    assert(s[i] == a);
                } else {
                    assert(s[i + 1] == a);
                }
            }
        }
        assert(rest.to_multiset().count(a) == 0);
    }
}

proof fn lemma_twice<A>(s: Seq<A>, i: int, j: int)
    requires
        0 <= i < j < s.len(),
        s[i] == s[j],
    ensures
        s.to_multiset().count(s[i]) >= 2,
{
    broadcast use vstd::seq_lib::group_to_multiset_ensures;

    let rest = s.remove(j);
    assert(rest[i] == s[i]);
    assert(rest.contains(s[i]));
    assert(rest.to_multiset().count(s[i]) > 0);
}

proof fn lemma_permuted(a: Seq<Sample>, b: Seq<Sample>)
    requires
        a.to_multiset() == b.to_multiset(),
        distinct_moments(a),
    ensures
        same_samples(a, b),
        distinct_moments(b),
{
    broadcast use vstd::seq_lib::group_to_multiset_ensures;

    assert forall|s: Sample|
        #![trigger a.contains(s)]
        #![trigger b.contains(s)]
        a.contains(s) <==> b.contains(s) by {
        assert(a.contains(s) <==> a.to_multiset().count(s) > 0);
        assert(b.contains(s) <==> b.to_multiset().count(s) > 0);
    }
    assert forall|i: int, j: int|
        0 <= i < j < b.len() && sample_key(b[i]) is Some && sample_key(#[trigger] b[i])
            == sample_key(#[trigger] b[j]) implies b[i].t != b[j].t by {
        if b[i].t == b[j].t {
            assert(b.contains(b[i]) && b.contains(b[j]));
            let x = a.index_of(b[i]);
            let y = a.index_of(b[j]);
            if b[i] == b[j] {
                lemma_twice(b, i, j);
                lemma_once(a, b[i]);
            } else {
                assert(a[x] == b[i] && a[y] == b[j]);
            }
        }
    }
}

proof fn lemma_same_windows_in(a: Seq<Sample>, b: Seq<Sample>, k: Seq<char>)
    requires
        same_samples(a, b),
    ensures
        same_points(windows_in(a, k), windows_in(b, k)),
{
    assert forall|p: Point| #[trigger] windows_in(a, k).contains(p) <==> #[trigger] windows_in(
        b,
        k,
    ).contains(p) by {
        lemma_session_points(a, k, p);
        lemma_session_points(b, k, p);
        if windows_in(a, k).contains(p) {
            let s = choose|s: Sample| #[trigger]
                a.contains(s) && sample_key(s) == Some(k) && on_subscription(s) && s.t == p.0;
            assert(b.contains(s));
        }
        if windows_in(b, k).contains(p) {
            let s = choose|s: Sample| #[trigger]
                b.contains(s) && sample_key(s) == Some(k) && on_subscription(s) && s.t == p.0;
            assert(a.contains(s));
        }
    }
}

/// What is asked of a session's windows does not depend on their order.
proof fn lemma_same_answers(v: Seq<Point>, w: Seq<Point>)
    requires
        same_points(v, w),
    ensures
        forall|t: int| #[trigger] near_window(v, t) == near_window(w, t),
        forall|t: int, u: int| #[trigger] window_between(v, t, u) == window_between(w, t, u),
{
    assert forall|i: int| 0 <= i < v.len() implies w.contains(#[trigger] v[i]) by {
        assert(v.contains(v[i]));
    }
    assert forall|i: int| 0 <= i < w.len() implies v.contains(#[trigger] w[i]) by {
        assert(w.contains(w[i]));
    }
    assert forall|t: int| #[trigger] near_window(v, t) == near_window(w, t) by {
        lemma_near(v, w, t);
        lemma_near(w, v, t);
    }
    assert forall|t: int, u: int| #[trigger] window_between(v, t, u) == window_between(w, t, u) by {
        lemma_between(v, w, t, u);
        lemma_between(w, v, t, u);
    }
}

proof fn lemma_near(v: Seq<Point>, w: Seq<Point>, t: int)
    requires
        forall|i: int| 0 <= i < v.len() ==> w.contains(#[trigger] v[i]),
    ensures
        near_window(v, t) ==> near_window(w, t),
{
    if near_window(v, t) {
        let i = choose|i: int|
            0 <= i < v.len() && -SUB_HOLD_SECS <= (#[trigger] v[i]).0 - t <= SUB_HOLD_SECS;
        let j = w.index_of(v[i]);
        assert(w[j].0 == v[i].0);
    }
}

proof fn lemma_between(v: Seq<Point>, w: Seq<Point>, t: int, u: int)
    requires
        forall|i: int| 0 <= i < v.len() ==> w.contains(#[trigger] v[i]),
    ensures
        window_between(v, t, u) ==> window_between(w, t, u),
{
    if window_between(v, t, u) {
        let i = choose|i: int| 0 <= i < v.len() && t < (#[trigger] v[i]).0 < u;
        let j = w.index_of(v[i]);
        assert(w[j].0 == v[i].0);
    }
}

/// Whether a sample makes the observation `p` of the session `k`, on one side of midnight.
spec fn makes(
    hist: Seq<Sample>,
    s: Sample,
    midnight: int,
    today: bool,
    k: Seq<char>,
    p: Point,
) -> bool {
    &&& attributable(hist, s)
    &&& (s.t >= midnight) == today
    &&& sample_key(s) == Some(k)
    &&& s.t == p.0
    &&& s.usd == Some(p.1)
}

proof fn lemma_spend_points(
    hist: Seq<Sample>,
    part: Seq<Sample>,
    midnight: int,
    today: bool,
    k: Seq<char>,
    p: Point,
)
    ensures
        points_of(spend_events(hist, part, midnight, today), k).contains(p) <==> exists|s: Sample|
            #[trigger] part.contains(s) && makes(hist, s, midnight, today, k, p),
    decreases part.len(),
{
    if part.len() > 0 {
        let head = part.drop_last();
        let last = part.last();
        let before = spend_events(hist, head, midnight, today);
        lemma_spend_points(hist, head, midnight, today, k, p);
        assert(part =~= head.push(last));
        lemma_push_contains(head, last, last);
        assert forall|s: Sample|
            #![trigger part.contains(s)]
            #![trigger head.contains(s)]
            part.contains(s) <==> head.contains(s) || s == last by {
            lemma_push_contains(head, last, s);
        }
        if attributable(hist, last) && (last.t >= midnight) == today {
            let key = sample_key(last)->0;
            let q = (last.t, last.usd->0);
            assert(before.push((key, q)).drop_last() =~= before);
            lemma_push_contains(points_of(before, k), q, p);
        }
    }
}

spec fn distinct_times(p: Seq<Point>) -> bool {
    forall|i: int, j: int| 0 <= i < j < p.len() ==> (#[trigger] p[i]).0 != (#[trigger] p[j]).0
}

proof fn lemma_spend_distinct(
    hist: Seq<Sample>,
    part: Seq<Sample>,
    midnight: int,
    today: bool,
    k: Seq<char>,
)
    requires
        distinct_moments(part),
    ensures
        distinct_times(points_of(spend_events(hist, part, midnight, today), k)),
    decreases part.len(),
{
    if part.len() > 0 {
        let head = part.drop_last();
        let n = part.len() - 1;
        let last = part[n];
        let before = spend_events(hist, head, midnight, today);
        assert forall|i: int, j: int|
            0 <= i < j < head.len() && sample_key(head[i]) is Some && sample_key(#[trigger] head[i])
                == sample_key(#[trigger] head[j]) implies head[i].t != head[j].t by {
            assert(head[i] == part[i] && head[j] == part[j]);
        }
        lemma_spend_distinct(hist, head, midnight, today, k);
        if attributable(hist, last) && (last.t >= midnight) == today {
            let key = sample_key(last)->0;
            let q = (last.t, last.usd->0);
            assert(before.push((key, q)).drop_last() =~= before);
            let ps = points_of(before, k);
            assert forall|i: int| 0 <= i < ps.len() && key == k implies (#[trigger] ps[i]).0
                != q.0 by {
                assert(ps.contains(ps[i]));
                lemma_spend_points(hist, head, midnight, today, k, ps[i]);
                let s = choose|s: Sample| #[trigger]
                    head.contains(s) && makes(hist, s, midnight, today, k, ps[i]);
                let x = head.index_of(s);
                assert(part[x] == s);
                assert(sample_key(part[x]) == sample_key(part[n]));
            }
        }
    }
}

spec fn strictly_ordered(p: Seq<Reading>) -> bool {
    forall|i: int, j: int| 0 <= i < j < p.len() ==> (#[trigger] p[i]).0 < (#[trigger] p[j]).0
}

proof fn lemma_insert_strictly(s: Seq<Reading>, x: Reading)
    requires
        strictly_ordered(s),
        forall|i: int| 0 <= i < s.len() ==> (#[trigger] s[i]).0 != x.0,
    ensures
        strictly_ordered(insert_by_moment(s, x)),
        forall|y: Reading| #[trigger] insert_by_moment(s, x).contains(y) <==> s.contains(y) || y == x,
    decreases s.len(),
{
    let r = insert_by_moment(s, x);
    if s.len() > 0 && x.0 < s.last().0 {
        let head = s.drop_last();
        let last = s.last();
        assert(s[s.len() - 1] == last);
        assert forall|i: int| 0 <= i < head.len() implies (#[trigger] head[i]).0 != x.0 by {
            assert(head[i] == s[i]);
        }
        assert(strictly_ordered(head)) by {
            assert forall|i: int, j: int| 0 <= i < j < head.len() implies (#[trigger] head[i]).0 < (
            #[trigger] head[j]).0 by {
                assert(head[i] == s[i] && head[j] == s[j]);
            }
        }
        lemma_insert_strictly(head, x);
        let q = insert_by_moment(head, x);
        assert forall|i: int| 0 <= i < q.len() implies (#[trigger] q[i]).0 < last.0 by {
            assert(q.contains(q[i]));
            if q[i] != x {
                let j = head.index_of(q[i]);
                assert(s[j] == q[i]);
                assert(s[j].0 < s[s.len() - 1].0);
            }
        }
        assert forall|i: int, j: int| 0 <= i < j < r.len() implies (#[trigger] r[i]).0 < (
        #[trigger] r[j]).0 by {
            assert(r[i] == q[i]);
            if j < q.len() {
                assert(r[j] == q[j]);
            }
        }
        assert(s =~= head.push(last));
        assert forall|y: Reading| #[trigger] r.contains(y) <==> s.contains(y) || y == x by {
            lemma_push_contains(q, last, y);
            lemma_push_contains(head, last, y);
        }
    } else {
        assert forall|y: Reading| #[trigger] r.contains(y) <==> s.contains(y) || y == x by {
            lemma_push_contains(s, x, y);
        }
        assert forall|i: int, j: int| 0 <= i < j < r.len() implies (#[trigger] r[i]).0 < (
        #[trigger] r[j]).0 by {
            if j < s.len() {
                assert(r[i] == s[i] && r[j] == s[j]);
            } else {
                assert(r[i] == s[i]);
                assert(s[s.len() - 1].0 < x.0);
            }
        }
    }
}

proof fn lemma_sorted_strictly(p: Seq<Reading>)
    requires
        forall|i: int, j: int| 0 <= i < j < p.len() ==> (#[trigger] p[i]).0 != (#[trigger] p[j]).0,
    ensures
        strictly_ordered(by_moment(p)),
        forall|y: Reading| #[trigger] by_moment(p).contains(y) <==> p.contains(y),
    decreases p.len(),
{
    if p.len() > 0 {
        let head = p.drop_last();
        let last = p.last();
        assert(p[p.len() - 1] == last);
        assert forall|i: int, j: int| 0 <= i < j < head.len() implies (#[trigger] head[i]).0 != (
        #[trigger] head[j]).0 by {
            assert(head[i] == p[i] && head[j] == p[j]);
        }
        lemma_sorted_strictly(head);
        let s = by_moment(head);
        assert forall|i: int| 0 <= i < s.len() implies (#[trigger] s[i]).0 != last.0 by {
            assert(s.contains(s[i]));
            let j = head.index_of(s[i]);
            assert(p[j] == s[i]);
        }
        lemma_insert_strictly(s, last);
        assert(p =~= head.push(last));
        assert forall|y: Reading| #[trigger] by_moment(p).contains(y) <==> p.contains(y) by {
            lemma_push_contains(head, last, y);
        }
    }
}

/// Readings in strict order are listed in one way only.
proof fn lemma_one_order(a: Seq<Reading>, b: Seq<Reading>)
    requires
        strictly_ordered(a),
        strictly_ordered(b),
        forall|y: Reading|
        #![trigger a.contains(y)]
        #![trigger b.contains(y)]
        a.contains(y) <==> b.contains(y),
    ensures
        a == b,
    decreases a.len(),
{
    if a.len() == 0 {
        if b.len() > 0 {
            assert(b.contains(b[0]));
        }
        assert(a =~= b);
    } else {
        let n = a.len() - 1;
        assert(a.contains(a[n]));
        let m = b.len() - 1;
        assert(b.contains(a[n]));
        assert(b.contains(b[m]));
        let i = b.index_of(a[n]);
        let j = a.index_of(b[m]);
        assert(a[n] == b[m]);
        let ha = a.drop_last();
        let hb = b.drop_last();
        assert(a =~= ha.push(a[n]));
        assert(b =~= hb.push(b[m]));
        assert(!ha.contains(a[n])) by {
            if ha.contains(a[n]) {
                let x = ha.index_of(a[n]);
                assert(a[x].0 < a[n].0);
            }
        }
        assert(!hb.contains(b[m])) by {
            if hb.contains(b[m]) {
                let x = hb.index_of(b[m]);
                assert(b[x].0 < b[m].0);
            }
        }
        assert forall|y: Reading|
        #![trigger ha.contains(y)]
        #![trigger hb.contains(y)]
        ha.contains(y) <==> hb.contains(y) by {
            lemma_push_contains(ha, a[n], y);
            lemma_push_contains(hb, b[m], y);
            assert(a.contains(y) <==> b.contains(y));
        }
        assert forall|x: int, y: int| 0 <= x < y < ha.len() implies (#[trigger] ha[x]).0 < (
        #[trigger] ha[y]).0 by {
            assert(ha[x] == a[x] && ha[y] == a[y]);
        }
        assert forall|x: int, y: int| 0 <= x < y < hb.len() implies (#[trigger] hb[x]).0 < (
        #[trigger] hb[y]).0 by {
            assert(hb[x] == b[x] && hb[y] == b[y]);
        }
        lemma_one_order(ha, hb);
    }
}

proof fn lemma_same_sorted(a: Seq<Point>, b: Seq<Point>)
    requires
        same_points(a, b),
        distinct_times(a),
        distinct_times(b),
    ensures
        by_moment(in_secs(a)) == by_moment(in_secs(b)),
{
    lemma_secs_contain(a);
    lemma_secs_contain(b);
    lemma_sorted_strictly(in_secs(a));
    lemma_sorted_strictly(in_secs(b));
    assert forall|y: Reading| #[trigger] by_moment(in_secs(a)).contains(y) <==> #[trigger] by_moment(
        in_secs(b),
    ).contains(y) by {
        let p = (y.0 as i64, y.1);
        assert(a.contains(p) <==> b.contains(p));
        assert(in_secs(a).contains(y) <==> i64::MIN <= y.0 <= i64::MAX && a.contains(p));
        assert(in_secs(b).contains(y) <==> i64::MIN <= y.0 <= i64::MAX && b.contains(p));
    }
    lemma_one_order(by_moment(in_secs(a)), by_moment(in_secs(b)));
}

proof fn lemma_secs_contain(a: Seq<Point>)
    requires
        distinct_times(a),
    ensures
        forall|y: Reading| #[trigger]
            in_secs(a).contains(y) <==> i64::MIN <= y.0 <= i64::MAX && a.contains(
                (y.0 as i64, y.1),
            ),
        forall|i: int, j: int|
            0 <= i < j < in_secs(a).len() ==> (#[trigger] in_secs(a)[i]).0 != (
            #[trigger] in_secs(a)[j]).0,
{
    let r = in_secs(a);
    assert forall|y: Reading| #[trigger] r.contains(y) <==> i64::MIN <= y.0 <= i64::MAX
        && a.contains((y.0 as i64, y.1)) by {
        let p = (y.0 as i64, y.1);
        if r.contains(y) {
            let i = r.index_of(y);
            assert(a[i] == p);
        }
        if i64::MIN <= y.0 <= i64::MAX && a.contains(p) {
            let i = a.index_of(p);
            assert(r[i] == y);
        }
    }
    assert forall|i: int, j: int| 0 <= i < j < r.len() implies (#[trigger] r[i]).0 != (
    #[trigger] r[j]).0 by {
        assert(a[i].0 != a[j].0);
    }
}

proof fn lemma_same_tally(v: Seq<Point>, w: Seq<Point>, p: Seq<Reading>, base: int, n: nat)
    requires
        same_points(v, w),
    ensures
        tally(v, p, base, n) == tally(w, p, base, n),
    decreases n,
{
    lemma_same_answers(v, w);
    if n > 1 {
        lemma_same_tally(v, w, p, base, (n - 1) as nat);
    }
}

/// What a session is charged does not depend on the order of its observations.
proof fn lemma_same_charge(
    v: Seq<Point>,
    w: Seq<Point>,
    pre_a: Seq<Point>,
    pre_b: Seq<Point>,
    obs_a: Seq<Point>,
    obs_b: Seq<Point>,
)
    requires
        same_points(v, w),
        same_points(pre_a, pre_b),
        same_points(obs_a, obs_b),
        distinct_times(obs_a),
        distinct_times(obs_b),
    ensures
        charge(v, pre_a, obs_a) == charge(w, pre_b, obs_b),
{
    lemma_same_answers(v, w);
    lemma_same_sorted(obs_a, obs_b);
    if pre_a.len() > 0 {
        lemma_highest(pre_a);
        assert(pre_b.contains(highest(pre_a)));
    }
    if pre_b.len() > 0 {
        lemma_highest(pre_b);
        assert(pre_a.contains(highest(pre_b)));
        assert(!better(highest(pre_a), highest(pre_b)) && !better(highest(pre_b), highest(pre_a)));
        assert(highest(pre_a) == highest(pre_b));
    }
    let p = by_moment(in_secs(obs_a));
    assert(baseline(v, pre_a, p[0]) == baseline(w, pre_b, p[0]));
    lemma_same_tally(v, w, p, baseline(v, pre_a, p[0]), p.len());
}

/// What the sessions in a list contribute.
spec fn contributed(
    hist: Seq<Sample>,
    pre: Seq<Event>,
    today: Seq<Event>,
    keys: Seq<Seq<char>>,
) -> int
    decreases keys.len(),
{
    if keys.len() == 0 {
        0
    } else {
        contributed(hist, pre, today, keys.drop_last()) + charge(
            windows_in(hist, keys.last()),
            points_of(pre, keys.last()),
            points_of(today, keys.last()),
        )
    }
}

proof fn lemma_charges_by_key(hist: Seq<Sample>, pre: Seq<Event>, today: Seq<Event>, n: nat)
    requires
        n <= keys_in(today).len(),
    ensures
        charges(hist, pre, today, n) == contributed(
            hist,
            pre,
            today,
            keys_in(today).take(n as int),
        ),
    decreases n,
{
    if n > 0 {
        lemma_charges_by_key(hist, pre, today, (n - 1) as nat);
        assert(keys_in(today).take(n as int).drop_last() =~= keys_in(today).take(n - 1));
    }
}

proof fn lemma_contributed_without(
    hist: Seq<Sample>,
    pre: Seq<Event>,
    today: Seq<Event>,
    keys: Seq<Seq<char>>,
    j: int,
)
    requires
        0 <= j < keys.len(),
    ensures
        contributed(hist, pre, today, keys) == contributed(hist, pre, today, keys.remove(j))
            + charge(
            windows_in(hist, keys[j]),
            points_of(pre, keys[j]),
            points_of(today, keys[j]),
        ),
    decreases keys.len(),
{
    let n = keys.len() - 1;
    if j < n {
        lemma_contributed_without(hist, pre, today, keys.drop_last(), j);
        assert(keys.remove(j).drop_last() =~= keys.drop_last().remove(j));
        assert(keys.remove(j).last() == keys.last());
    } else {
        assert(keys.remove(j) =~= keys.drop_last());
    }
}

proof fn lemma_same_contributed(
    a: Seq<Sample>,
    pre_a: Seq<Event>,
    today_a: Seq<Event>,
    keys_a: Seq<Seq<char>>,
    b: Seq<Sample>,
    pre_b: Seq<Event>,
    today_b: Seq<Event>,
    keys_b: Seq<Seq<char>>,
)
    requires
        keys_a.no_duplicates(),
        keys_b.no_duplicates(),
        forall|k: Seq<char>|
        #![trigger keys_a.contains(k)]
        #![trigger keys_b.contains(k)]
        keys_a.contains(k) <==> keys_b.contains(k),
        forall|k: Seq<char>|
            #![trigger points_of(today_a, k)]
            charge(windows_in(a, k), points_of(pre_a, k), points_of(today_a, k)) == charge(
                windows_in(b, k),
                points_of(pre_b, k),
                points_of(today_b, k),
            ),
    ensures
        keys_a.len() == keys_b.len(),
        contributed(a, pre_a, today_a, keys_a) == contributed(b, pre_b, today_b, keys_b),
    decreases keys_a.len(),
{
    if keys_a.len() == 0 {
        if keys_b.len() > 0 {
            assert(keys_b.contains(keys_b[0]));
        }
    } else {
        let k = keys_a.last();
        let n = keys_a.len() - 1;
        assert(keys_a.contains(keys_a[n]));
        assert(keys_b.contains(k));
        let j = keys_b.index_of(k);
        let ra = keys_a.drop_last();
        let rb = keys_b.remove(j);
        lemma_contributed_without(b, pre_b, today_b, keys_b, j);
        assert forall|x: Seq<char>|
        #![trigger ra.contains(x)]
        #![trigger rb.contains(x)]
        ra.contains(x) <==> rb.contains(x) by {
            if ra.contains(x) {
                let i = ra.index_of(x);
                assert(keys_a[i] == x);
                assert(keys_a.contains(x));
                assert(x != k);
                let y = keys_b.index_of(x);
                if y < j {
                    assert(rb[y] == x);
                } else {
                    assert(rb[y - 1] == x);
                }
            }
            if rb.contains(x) {
                let i = rb.index_of(x);
                let y = if i < j {
                    i
                } else {
                    i + 1
                };
                assert(keys_b[y] == x);
                assert(keys_b.contains(x));
                assert(x != k);
                let z = keys_a.index_of(x);
                assert(ra[z] == x);
            }
        }
        assert(points_of(today_a, k) == points_of(today_a, k));
        lemma_same_contributed(a, pre_a, today_a, ra, b, pre_b, today_b, rb);
    }
}

proof fn lemma_same_spend_points(
    a: Seq<Sample>,
    b: Seq<Sample>,
    midnight: int,
    today: bool,
    k: Seq<char>,
)
    requires
        same_samples(a, b),
    ensures
        same_points(
            points_of(spend_events(a, a, midnight, today), k),
            points_of(spend_events(b, b, midnight, today), k),
        ),
{
    lemma_same_windows_in(a, b, k);
    lemma_same_answers(windows_in(a, k), windows_in(b, k));
    assert forall|p: Point| #[trigger]
        points_of(spend_events(a, a, midnight, today), k).contains(p) <==> #[trigger] points_of(
            spend_events(b, b, midnight, today),
            k,
        ).contains(p) by {
        lemma_spend_points(a, a, midnight, today, k, p);
        lemma_spend_points(b, b, midnight, today, k, p);
        if exists|s: Sample| #[trigger] a.contains(s) && makes(a, s, midnight, today, k, p) {
            let s = choose|s: Sample| #[trigger]
                a.contains(s) && makes(a, s, midnight, today, k, p);
            assert(b.contains(s) && makes(b, s, midnight, today, k, p));
        }
        if exists|s: Sample| #[trigger] b.contains(s) && makes(b, s, midnight, today, k, p) {
            let s = choose|s: Sample| #[trigger]
                b.contains(s) && makes(b, s, midnight, today, k, p);
            assert(a.contains(s) && makes(a, s, midnight, today, k, p));
        }
    }
}

/// Today's observations of one session, the live counter among them.
proof fn lemma_today_points(
    hist: Seq<Sample>,
    midnight: int,
    live: Option<LiveCounter>,
    now: int,
    k: Seq<char>,
)
    requires
        distinct_moments(hist),
        live_moment_is_free(hist, live, now),
    ensures
        distinct_times(points_of(today_events(hist, midnight, live, now), k)),
        ({
            let logged = points_of(spend_events(hist, hist, midnight, true), k);
            points_of(today_events(hist, midnight, live, now), k) == if live_counts(
                hist,
                live,
                now,
            ) && live_key(live) == Some(k) {
                logged.push((whole_secs(now), live->0.usd))
            } else {
                logged
            }
        }),
{
    let events = spend_events(hist, hist, midnight, true);
    let logged = points_of(events, k);
    lemma_spend_distinct(hist, hist, midnight, true, k);
    if live_counts(hist, live, now) {
        let e = (live_key(live)->0, (whole_secs(now), live->0.usd));
        assert(events.push(e).drop_last() =~= events);
        if live_key(live) == Some(k) {
            assert forall|i: int| 0 <= i < logged.len() implies (#[trigger] logged[i]).0
                != whole_secs(now) by {
                assert(logged.contains(logged[i]));
                lemma_spend_points(hist, hist, midnight, true, k, logged[i]);
                let s = choose|s: Sample| #[trigger]
                    hist.contains(s) && makes(hist, s, midnight, true, k, logged[i]);
                let x = hist.index_of(s);
                assert(sample_key(hist[x]) == live_key(live));
            }
        }
    }
}

/// The day figure does not depend on the order in which the samples are listed: a history and a
/// permutation of it charge the same total and count as many sessions. Of two samples of one
/// session taken at the same time the order would decide which comes first.
pub proof fn the_day_figure_ignores_the_order_of_samples(
    a: Seq<Sample>,
    b: Seq<Sample>,
    midnight: int,
    live: Option<LiveCounter>,
    now: int,
)
    requires
        a.to_multiset() == b.to_multiset(),
        distinct_moments(a),
        live_moment_is_free(a, live, now),
    ensures
        day_total(a, midnight, live, now) == day_total(b, midnight, live, now),
        keys_in(today_events(a, midnight, live, now)).len() == keys_in(
            today_events(b, midnight, live, now),
        ).len(),
{
    lemma_permuted(a, b);
    assert(live_moment_is_free(b, live, now)) by {
        assert forall|i: int|
            0 <= i < b.len() && live_key(live) is Some && sample_key(#[trigger] b[i]) == live_key(
                live,
            ) implies b[i].t != whole_secs(now) by {
            assert(b.contains(b[i]));
            assert(a.contains(b[i]));
            let x = a.index_of(b[i]);
            assert(sample_key(a[x]) == live_key(live));
        }
    }
    let today_a = today_events(a, midnight, live, now);
    let today_b = today_events(b, midnight, live, now);
    let pre_a = spend_events(a, a, midnight, false);
    let pre_b = spend_events(b, b, midnight, false);
    let keys_a = keys_in(today_a);
    let keys_b = keys_in(today_b);
    assert(live_counts(a, live, now) == live_counts(b, live, now)) by {
        if live_key(live) is Some {
            let k = live_key(live)->0;
            lemma_same_windows_in(a, b, k);
            lemma_same_answers(windows_in(a, k), windows_in(b, k));
            assert(near_window(windows_in(a, k), whole_secs(now) as int) == near_window(
                windows_in(b, k),
                whole_secs(now) as int,
            ));
        }
    }
    assert forall|k: Seq<char>| #[trigger] same_points(
        points_of(today_a, k),
        points_of(today_b, k),
    ) by {
        lemma_same_spend_points(a, b, midnight, true, k);
        lemma_today_points(a, midnight, live, now, k);
        lemma_today_points(b, midnight, live, now, k);
        let la = points_of(spend_events(a, a, midnight, true), k);
        let lb = points_of(spend_events(b, b, midnight, true), k);
        let q = (whole_secs(now), live->0.usd);
        assert forall|p: Point| #[trigger] points_of(today_a, k).contains(p) <==> #[trigger] points_of(
            today_b,
            k,
        ).contains(p) by {
            lemma_push_contains(la, q, p);
            lemma_push_contains(lb, q, p);
            assert(la.contains(p) <==> lb.contains(p));
        }
    }
    assert forall|k: Seq<char>|
        #![trigger points_of(today_a, k)]
        charge(windows_in(a, k), points_of(pre_a, k), points_of(today_a, k)) == charge(
            windows_in(b, k),
            points_of(pre_b, k),
            points_of(today_b, k),
        ) by {
        lemma_same_windows_in(a, b, k);
        lemma_same_spend_points(a, b, midnight, false, k);
        lemma_today_points(a, midnight, live, now, k);
        lemma_today_points(b, midnight, live, now, k);
        assert(same_points(points_of(today_a, k), points_of(today_b, k)));
        lemma_same_charge(
            windows_in(a, k),
            windows_in(b, k),
            points_of(pre_a, k),
            points_of(pre_b, k),
            points_of(today_a, k),
            points_of(today_b, k),
        );
    }
    assert forall|k: Seq<char>|
        #![trigger keys_a.contains(k)]
        #![trigger keys_b.contains(k)]
        keys_a.contains(k) <==> keys_b.contains(k) by {
        lemma_keys_have_points(today_a, k);
        lemma_keys_have_points(today_b, k);
        let pa = points_of(today_a, k);
        let pb = points_of(today_b, k);
        assert(same_points(pa, pb));
        if pa.len() > 0 {
            assert(pa.contains(pa[0]));
            assert(pb.contains(pa[0]));
        }
        if pb.len() > 0 {
            assert(pb.contains(pb[0]));
            assert(pa.contains(pb[0]));
        }
    }
    lemma_keys_distinct(today_a);
    lemma_keys_distinct(today_b);
    lemma_same_contributed(a, pre_a, today_a, keys_a, b, pre_b, today_b, keys_b);
    lemma_charges_by_key(a, pre_a, today_a, keys_a.len());
    lemma_charges_by_key(b, pre_b, today_b, keys_b.len());
    assert(keys_a.take(keys_a.len() as int) =~= keys_a);
    assert(keys_b.take(keys_b.len() as int) =~= keys_b);
}

} // verus!
