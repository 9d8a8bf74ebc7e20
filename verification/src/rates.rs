//! Laws of the burn rates: which samples a rate is fitted over, what a least-squares slope says
//! of them, and what counters burned between two moments.

use vstd::prelude::*;

use crate::burn::{
    analysis_at, climb, climbs, counter_events, covariation, in_micros, int_opt, least,
    loose_points, most, num_of, rate_window, readings, same_reset, segment_of, segment_rate,
    session_delta, slope, slope_needs_two_moments, spread, sum_x, sum_xx, sum_xy, sum_y, within,
    Analysis, Counter, Win, HOUR_MICROS,
};
use crate::day::{lemma_joined_keys, lemma_joined_points};
use crate::history::{sid_text, Sample};
use crate::num::{clamp_i64, round_div, Num};
use crate::series::{
    keys_in, lemma_keys_have_points, lemma_push_contains, points_of, Event, Point,
};

verus! {

// ---------------------------------------------------------------------------------------
// The trailing window
// ---------------------------------------------------------------------------------------

/// Whether a point is no older than `window` microseconds.
pub open spec fn no_older_than(window: int, now: int) -> spec_fn(Point) -> bool {
    |p: Point| now - p.0 * 1_000_000 <= window
}

proof fn lemma_within(p: Seq<Point>, window: int, now: int)
    ensures
        within(p, window, now) == p.filter(no_older_than(window, now)),
    decreases p.len(),
{
    reveal(Seq::filter);
    if p.len() > 0 {
        lemma_within(p.drop_last(), window, now);
    } else {
        assert(within(p, window, now) =~= p.filter(no_older_than(window, now)));
    }
}

/// Where two points of a segment at least are no older than the window, the rate is the slope of
/// those points, and where fewer are, that of the whole segment.
pub proof fn a_rate_is_the_slope_of_the_recent_points(seg: Seq<Point>, window: int, now: int)
    ensures
        ({
            let recent = seg.filter(no_older_than(window, now));
            &&& recent.len() >= 2 ==> segment_rate(seg, window, now) == slope(
                readings(in_micros(recent)),
            )
            &&& recent.len() < 2 ==> segment_rate(seg, window, now) == slope(
                readings(in_micros(seg)),
            )
        }),
{
    lemma_within(seg, window, now);
}

/// Points older than the window do not move the rate: two segments that agree on the points no
/// older than it, and have two of them at least, have one rate.
pub proof fn older_points_do_not_move_the_rate(
    a: Seq<Point>,
    b: Seq<Point>,
    window: int,
    now: int,
)
    requires
        a.filter(no_older_than(window, now)) == b.filter(no_older_than(window, now)),
        a.filter(no_older_than(window, now)).len() >= 2,
    ensures
        segment_rate(a, window, now) == segment_rate(b, window, now),
{
    lemma_within(a, window, now);
    lemma_within(b, window, now);
}

proof fn lemma_filter_insert<A>(s: Seq<A>, i: int, x: A, pred: spec_fn(A) -> bool)
    requires
        0 <= i <= s.len(),
        !pred(x),
    ensures
        s.insert(i, x).filter(pred) == s.filter(pred),
    decreases s.len(),
{
    reveal(Seq::filter);
    let more = s.insert(i, x);
    if i == s.len() {
        assert(more.drop_last() =~= s);
    } else {
        assert(more.drop_last() =~= s.drop_last().insert(i, x));
        assert(more.last() == s.last());
        lemma_filter_insert(s.drop_last(), i, x, pred);
    }
}

/// A point older than the window, wherever it stands in the segment, changes nothing.
pub proof fn an_older_point_changes_nothing(
    seg: Seq<Point>,
    i: int,
    p: Point,
    window: int,
    now: int,
)
    requires
        0 <= i <= seg.len(),
        now - p.0 * 1_000_000 > window,
        seg.filter(no_older_than(window, now)).len() >= 2,
    ensures
        segment_rate(seg.insert(i, p), window, now) == segment_rate(seg, window, now),
{
    lemma_filter_insert(seg, i, p, no_older_than(window, now));
    older_points_do_not_move_the_rate(seg.insert(i, p), seg, window, now);
}

/// The percentage that a sample states of a window.
pub open spec fn stated_pct(win: Win, s: Sample) -> Option<i64> {
    match win {
        Win::FiveHour => s.h5,
        Win::SevenDay => s.d7,
    }
}

/// Whether a sample states `cur` as the reset of a window.
pub open spec fn states_reset(win: Win, s: Sample, cur: Option<Num>) -> bool {
    let stated = match win {
        Win::FiveHour => s.h5r,
        Win::SevenDay => s.d7r,
    };
    match stated {
        Some(r) => cur == Some(Num::Finite(r)),
        None => cur is None,
    }
}

/// Whether a sample reports the window's percentage before the reset `cur`, and is no older than
/// `window` microseconds.
pub open spec fn reports(win: Win, cur: Option<Num>, window: int, now: int) -> spec_fn(
    Sample,
) -> bool {
    |s: Sample|
        stated_pct(win, s) is Some && states_reset(win, s, cur) && now - s.t * 1_000_000 <= window
}

/// A sample's moment in microseconds, and the percentage it reports.
pub open spec fn reading_of(win: Win) -> spec_fn(Sample) -> (int, int) {
    |s: Sample| (s.t * 1_000_000, stated_pct(win, s)->0 as int)
}

proof fn lemma_recent_segment(hist: Seq<Sample>, win: Win, cur: Option<Num>, window: int, now: int)
    ensures
        readings(in_micros(within(segment_of(hist, win, cur), window, now))) == hist.filter(
            reports(win, cur, window, now),
        ).map_values(reading_of(win)),
        within(segment_of(hist, win, cur), window, now).len() == hist.filter(
            reports(win, cur, window, now),
        ).len(),
    decreases hist.len(),
{
    reveal(Seq::filter);
    let pred = reports(win, cur, window, now);
    let seg = segment_of(hist, win, cur);
    if hist.len() > 0 {
        let head = hist.drop_last();
        let s = hist.last();
        let before = segment_of(head, win, cur);
        lemma_recent_segment(head, win, cur, window, now);
        if win.pct_in(s) is Some && same_reset(win.reset_in(s), cur) {
            let p: Point = (s.t, win.pct_in(s)->0);
            assert(seg == before.push(p));
            assert(seg.drop_last() =~= before);
            let kept = within(before, window, now);
            let listed = head.filter(pred);
            if now - s.t * 1_000_000 <= window {
                assert(within(seg, window, now) == kept.push(p));
                assert(hist.filter(pred) == listed.push(s));
                assert(readings(in_micros(kept.push(p))) =~= readings(in_micros(kept)).push(
                    reading_of(win)(s),
                ));
                assert(listed.push(s).map_values(reading_of(win)) =~= listed.map_values(
                    reading_of(win),
                ).push(reading_of(win)(s)));
            }
        }
    } else {
        assert(readings(in_micros(within(seg, window, now))) =~= hist.filter(pred).map_values(
            reading_of(win),
        ));
    }
}

/// The rate beside a bar is the slope of the percentages that the samples of the last two hours
/// report before the current reset, wherever two of them do.
pub proof fn the_status_line_looks_back_two_hours(
    hist: Seq<Sample>,
    win: Win,
    cur: Option<Num>,
    now: int,
)
    requires
        hist.filter(reports(win, cur, 7_200_000_000, now)).len() >= 2,
    ensures
        segment_rate(segment_of(hist, win, cur), rate_window(), now) == slope(
            hist.filter(reports(win, cur, 7_200_000_000, now)).map_values(reading_of(win)),
        ),
{
    lemma_recent_segment(hist, win, cur, 7_200_000_000, now);
}

/// The rate in the report is the slope of the percentages that samples no older than the window
/// asked for report before the current reset, wherever two of them do.
pub proof fn the_report_looks_back_as_far_as_asked(
    a: Analysis,
    hist: Seq<Sample>,
    win: Win,
    i: int,
    window: int,
    now: int,
)
    requires
        analysis_at(a, hist, win, i, window, now),
        hist.filter(reports(win, num_of(win.reset_in(hist[i])), window, now)).len() >= 2,
    ensures
        int_opt(a.rate) == slope(
            hist.filter(reports(win, num_of(win.reset_in(hist[i])), window, now)).map_values(
                reading_of(win),
            ),
        ),
{
    lemma_recent_segment(hist, win, num_of(win.reset_in(hist[i])), window, now);
}

/// A sample that is older than two hours, or that reports another reset, or no percentage, does
/// not move the rate beside a bar, wherever it stands in the history.
pub proof fn a_sample_out_of_the_window_does_not_move_the_rate(
    hist: Seq<Sample>,
    i: int,
    s: Sample,
    win: Win,
    cur: Option<Num>,
    now: int,
)
    requires
        0 <= i <= hist.len(),
        hist.filter(reports(win, cur, 7_200_000_000, now)).len() >= 2,
        now - s.t * 1_000_000 > 7_200_000_000 || !states_reset(win, s, cur) || stated_pct(win, s)
            is None,
    ensures
        segment_rate(segment_of(hist.insert(i, s), win, cur), rate_window(), now) == segment_rate(
            segment_of(hist, win, cur),
            rate_window(),
            now,
        ),
{
    lemma_filter_insert(hist, i, s, reports(win, cur, 7_200_000_000, now));
    the_status_line_looks_back_two_hours(hist, win, cur, now);
    the_status_line_looks_back_two_hours(hist.insert(i, s), win, cur, now);
}

// ---------------------------------------------------------------------------------------
// What a slope says
// ---------------------------------------------------------------------------------------

/// The products of the distances, in time and in amount, of each point from one point.
pub open spec fn moved_together(p: Seq<(int, int)>, x: int, y: int) -> int
    decreases p.len(),
{
    if p.len() == 0 {
        0
    } else {
        moved_together(p.drop_last(), x, y) + (p.last().0 - x) * (p.last().1 - y)
    }
}

/// The same, summed over every pair of points.
pub open spec fn pairs_together(p: Seq<(int, int)>) -> int
    decreases p.len(),
{
    if p.len() == 0 {
        0
    } else {
        pairs_together(p.drop_last()) + moved_together(p.drop_last(), p.last().0, p.last().1)
    }
}

/// The squared distances in time, summed over every pair of points.
pub open spec fn pairs_apart(p: Seq<(int, int)>) -> int {
    pairs_together(timed(p))
}

/// The points with their moments in the place of their amounts.
pub open spec fn timed(p: Seq<(int, int)>) -> Seq<(int, int)> {
    Seq::new(p.len(), |i: int| (p[i].0, p[i].0))
}

proof fn lemma_together(p: Seq<(int, int)>, x: int, y: int)
    ensures
        moved_together(p, x, y) == sum_xy(p) - y * sum_x(p) - x * sum_y(p) + p.len() * (x * y),
    decreases p.len(),
{
    if p.len() > 0 {
        let head = p.drop_last();
        lemma_together(head, x, y);
        let (a, b) = p.last();
        let (n, sx, sy) = (head.len() as int, sum_x(head), sum_y(head));
        assert((a - x) * (b - y) == a * b - y * a - x * b + x * y) by (nonlinear_arith);
        assert(y * (sx + a) == y * sx + y * a) by (nonlinear_arith);
        assert(x * (sy + b) == x * sy + x * b) by (nonlinear_arith);
        assert((n + 1) * (x * y) == n * (x * y) + x * y) by (nonlinear_arith);
    } else {
        assert(y * 0 == 0 && x * 0 == 0 && 0 * (x * y) == 0) by (nonlinear_arith);
    }
}

proof fn lemma_pairs(p: Seq<(int, int)>)
    ensures
        covariation(p) == pairs_together(p),
    decreases p.len(),
{
    if p.len() > 0 {
        let head = p.drop_last();
        lemma_pairs(head);
        let (x, y) = p.last();
        lemma_together(head, x, y);
        let (n, sx, sy, sxy) = (head.len() as int, sum_x(head), sum_y(head), sum_xy(head));
        assert((n + 1) * (sxy + x * y) == n * sxy + sxy + n * (x * y) + x * y) by (nonlinear_arith);
        assert((sx + x) * (sy + y) == sx * sy + y * sx + x * sy + x * y) by (nonlinear_arith);
    }
}

proof fn lemma_timed(p: Seq<(int, int)>)
    ensures
        sum_x(timed(p)) == sum_x(p),
        sum_y(timed(p)) == sum_x(p),
        sum_xy(timed(p)) == sum_xx(p),
    decreases p.len(),
{
    if p.len() > 0 {
        lemma_timed(p.drop_last());
        assert(timed(p).drop_last() =~= timed(p.drop_last()));
    }
}

/// The slope is that of the least-squares line: over all pairs of points, how far they lie apart
/// in amount times how far in time, over how far in time squared. It is per hour, to the nearest
/// millionth, and there is one exactly if two points lie apart in time.
pub proof fn the_slope_is_least_squares(p: Seq<(int, int)>)
    ensures
        pairs_apart(p) >= 0,
        slope(p) is Some <==> pairs_apart(p) > 0,
        pairs_apart(p) > 0 ==> slope(p) == Some(
            clamp_i64(round_div(pairs_together(p) * 3_600_000_000, pairs_apart(p))),
        ),
{
    lemma_pairs(p);
    lemma_pairs(timed(p));
    lemma_timed(p);
    slope_needs_two_moments(p);
    assert(spread(p) == covariation(timed(p)));
    if p.len() < 2 {
        if p.len() == 1 {
            let none = Seq::<(int, int)>::empty();
            let q = timed(p);
            assert(q.drop_last() =~= none);
            assert(pairs_together(none) == 0);
            assert(moved_together(none, q.last().0, q.last().1) == 0);
        }
    }
}

/// Whether no amount is below one of an earlier moment.
pub open spec fn never_sinks(p: Seq<(int, int)>) -> bool {
    forall|i: int, j: int|
        0 <= i < p.len() && 0 <= j < p.len() && (#[trigger] p[i]).0 < (#[trigger] p[j]).0 ==> p[i].1
            <= p[j].1
}

proof fn lemma_together_rises(p: Seq<(int, int)>, x: int, y: int)
    requires
        forall|i: int|
            0 <= i < p.len() ==> ((#[trigger] p[i]).0 < x ==> p[i].1 <= y) && (p[i].0 > x ==> p[i].1
                >= y),
    ensures
        moved_together(p, x, y) >= 0,
        (exists|i: int| 0 <= i < p.len() && (#[trigger] p[i]).0 != x && p[i].1 != y)
            ==> moved_together(p, x, y) > 0,
    decreases p.len(),
{
    if p.len() > 0 {
        let head = p.drop_last();
        assert forall|i: int| 0 <= i < head.len() implies ((#[trigger] head[i]).0 < x ==> head[i].1
            <= y) && (head[i].0 > x ==> head[i].1 >= y) by {
            assert(head[i] == p[i]);
        }
        lemma_together_rises(head, x, y);
        let (a, b) = p.last();
        assert(p[p.len() - 1] == (a, b));
        assert((a - x) * (b - y) >= 0) by (nonlinear_arith)
            requires
                a < x ==> b <= y,
                a > x ==> b >= y,
        ;
        if exists|i: int| 0 <= i < p.len() && (#[trigger] p[i]).0 != x && p[i].1 != y {
            let i = choose|i: int| 0 <= i < p.len() && (#[trigger] p[i]).0 != x && p[i].1 != y;
            if i < head.len() {
                assert(head[i].0 != x && head[i].1 != y);
            } else {
                assert((a - x) * (b - y) > 0) by (nonlinear_arith)
                    requires
                        a < x ==> b <= y,
                        a > x ==> b >= y,
                        a != x,
                        b != y,
                ;
            }
        }
    }
}

proof fn lemma_pairs_rise(p: Seq<(int, int)>)
    requires
        never_sinks(p),
    ensures
        pairs_together(p) >= 0,
        (exists|i: int, j: int|
            0 <= i < p.len() && 0 <= j < p.len() && (#[trigger] p[i]).0 < (#[trigger] p[j]).0
                && p[i].1 < p[j].1) ==> pairs_together(p) > 0,
    decreases p.len(),
{
    if p.len() > 0 {
        let head = p.drop_last();
        assert forall|i: int, j: int|
            0 <= i < head.len() && 0 <= j < head.len() && (#[trigger] head[i]).0 < (
            #[trigger] head[j]).0 implies head[i].1 <= head[j].1 by {
            assert(p[i].0 < p[j].0);
        }
        lemma_pairs_rise(head);
        let (x, y) = p.last();
        let n = p.len() - 1;
        assert(p[n] == (x, y));
        assert forall|i: int| 0 <= i < head.len() implies ((#[trigger] head[i]).0 < x ==> head[i].1
            <= y) && (head[i].0 > x ==> head[i].1 >= y) by {
            assert(head[i] == p[i]);
            if p[i].0 < p[n].0 {
            }
            if p[n].0 < p[i].0 {
            }
        }
        lemma_together_rises(head, x, y);
        if exists|i: int, j: int|
            0 <= i < p.len() && 0 <= j < p.len() && (#[trigger] p[i]).0 < (#[trigger] p[j]).0
                && p[i].1 < p[j].1 {
            let (i, j) = choose|i: int, j: int|
                0 <= i < p.len() && 0 <= j < p.len() && (#[trigger] p[i]).0 < (#[trigger] p[j]).0
                    && p[i].1 < p[j].1;
            if i < n && j < n {
                assert(head[i].0 < head[j].0 && head[i].1 < head[j].1);
            } else if i < n {
                assert(head[i].0 != x && head[i].1 != y);
            } else {
                assert(head[j].0 != x && head[j].1 != y);
            }
        }
    }
}

/// Amounts that never sink have no slope below zero, and where they rose the line through them
/// rises.
pub proof fn what_never_sinks_has_no_negative_slope(p: Seq<(int, int)>)
    requires
        never_sinks(p),
    ensures
        slope(p) matches Some(r) ==> r >= 0,
        (exists|i: int, j: int|
            0 <= i < p.len() && 0 <= j < p.len() && (#[trigger] p[i]).0 < (#[trigger] p[j]).0
                && p[i].1 < p[j].1) ==> pairs_together(p) > 0 && slope(p) is Some,
{
    lemma_pairs_rise(p);
    the_slope_is_least_squares(p);
    slope_needs_two_moments(p);
    if pairs_apart(p) > 0 {
        let (t, d) = (pairs_together(p) * 3_600_000_000, pairs_apart(p));
        assert((2 * t + d) / (2 * d) >= 0) by (nonlinear_arith)
            requires
                t >= 0,
                d > 0,
        ;
    }
}

/// Points on a line that rises by `rise` in each `run` microseconds have that line's slope,
/// however many there are and whenever they were taken.
pub proof fn points_on_a_line_have_its_slope(p: Seq<(int, int)>, at: int, rise: int, run: int)
    requires
        run > 0,
        forall|i: int| 0 <= i < p.len() ==> (#[trigger] p[i]).1 * run == at + rise * p[i].0,
        slope(p) is Some,
    ensures
        slope(p) == Some(clamp_i64(round_div(rise * 3_600_000_000, run))),
{
    lemma_on_line(p, at, rise, run);
    the_slope_is_least_squares(p);
    slope_needs_two_moments(p);
    let (n, sx, sy, sxx, sxy) = (p.len() as int, sum_x(p), sum_y(p), sum_xx(p), sum_xy(p));
    let (c, d) = (covariation(p), spread(p));
    assert(c * run == n * (sxy * run) - sx * (sy * run)) by (nonlinear_arith)
        requires
            c == n * sxy - sx * sy,
    ;
    assert(n * (at * sx + rise * sxx) == at * (n * sx) + rise * (n * sxx)) by (nonlinear_arith);
    assert(sx * (n * at + rise * sx) == at * (n * sx) + rise * (sx * sx)) by (nonlinear_arith);
    assert(rise * d == rise * (n * sxx) - rise * (sx * sx)) by (nonlinear_arith)
        requires
            d == n * sxx - sx * sx,
    ;
    let h = 3_600_000_000int;
    assert((c * h) * run == (rise * h) * d) by (nonlinear_arith)
        requires
            c * run == rise * d,
    ;
    lemma_same_rounding(c * h, d, rise * h, run);
    assert(HOUR_MICROS == h);
}

proof fn lemma_on_line(p: Seq<(int, int)>, at: int, rise: int, run: int)
    requires
        forall|i: int| 0 <= i < p.len() ==> (#[trigger] p[i]).1 * run == at + rise * p[i].0,
    ensures
        sum_y(p) * run == p.len() * at + rise * sum_x(p),
        sum_xy(p) * run == at * sum_x(p) + rise * sum_xx(p),
    decreases p.len(),
{
    if p.len() > 0 {
        let head = p.drop_last();
        assert forall|i: int| 0 <= i < head.len() implies (#[trigger] head[i]).1 * run == at + rise
            * head[i].0 by {
            assert(head[i] == p[i]);
        }
        lemma_on_line(head, at, rise, run);
        let (x, y) = p.last();
        assert(p[p.len() - 1] == (x, y));
        let (n, sx, sy, sxx, sxy) = (
            head.len() as int,
            sum_x(head),
            sum_y(head),
            sum_xx(head),
            sum_xy(head),
        );
        assert((sy + y) * run == (n + 1) * at + rise * (sx + x)) by (nonlinear_arith)
            requires
                sy * run == n * at + rise * sx,
                y * run == at + rise * x,
        ;
        assert((x * y) * run == at * x + rise * (x * x)) by (nonlinear_arith)
            requires
                y * run == at + rise * x,
        ;
        assert((sxy + x * y) * run == at * (sx + x) + rise * (sxx + x * x)) by (nonlinear_arith)
            requires
                sxy * run == at * sx + rise * sxx,
                (x * y) * run == at * x + rise * (x * x),
        ;
    } else {
        assert(0 * run == 0 && 0 * at == 0 && rise * 0 == 0 && at * 0 == 0) by (nonlinear_arith);
    }
}

/// One quotient rounds to one number, however it is written.
proof fn lemma_same_rounding(a: int, b: int, c: int, d: int)
    requires
        b > 0,
        d > 0,
        a * d == c * b,
    ensures
        round_div(a, b) == round_div(c, d),
{
    assert((a >= 0) == (c >= 0)) by (nonlinear_arith)
        requires
            a * d == c * b,
            b > 0,
            d > 0,
    ;
    if a >= 0 {
        lemma_same_rounding_up(a, b, c, d);
    } else {
        assert((-a) * d == (-c) * b) by (nonlinear_arith)
            requires
                a * d == c * b,
        ;
        lemma_same_rounding_up(-a, b, -c, d);
    }
}

proof fn lemma_same_rounding_up(a: int, b: int, c: int, d: int)
    requires
        b > 0,
        d > 0,
        a >= 0,
        c >= 0,
        a * d == c * b,
    ensures
        (2 * a + b) / (2 * b) == (2 * c + d) / (2 * d),
{
    let q = (2 * a + b) / (2 * b);
    let r = (2 * a + b) % (2 * b);
    vstd::arithmetic::div_mod::lemma_fundamental_div_mod(2 * a + b, 2 * b);
    let s = 2 * c + d - q * (2 * d);
    // The remainders stand to each other as the divisors do.
    assert(s * b == r * d) by (nonlinear_arith)
        requires
            2 * a + b == (2 * b) * q + r,
            s == 2 * c + d - q * (2 * d),
            a * d == c * b,
    ;
    assert(0 <= s < 2 * d) by (nonlinear_arith)
        requires
            s * b == r * d,
            0 <= r < 2 * b,
            b > 0,
            d > 0,
    ;
    vstd::arithmetic::div_mod::lemma_fundamental_div_mod_converse(2 * c + d, 2 * d, q, s);
}

// ---------------------------------------------------------------------------------------
// What counters burned
// ---------------------------------------------------------------------------------------

/// Whether no session has a sample in both histories. Samples without an id are of one session.
pub open spec fn no_common_session(a: Seq<Sample>, b: Seq<Sample>) -> bool {
    forall|i: int, j: int|
        0 <= i < a.len() && 0 <= j < b.len() ==> sid_text((#[trigger] a[i]).sid) != sid_text(
            (#[trigger] b[j]).sid,
        )
}

/// Two burns together; of what was not observed there is none.
pub open spec fn burned_together(a: Option<int>, b: Option<int>) -> Option<int> {
    match (a, b) {
        (Some(x), Some(y)) => Some(clamp_i64(x + y)),
        (Some(x), None) => Some(x),
        (None, y) => y,
    }
}

proof fn lemma_joined_counters(a: Seq<Sample>, b: Seq<Sample>, c: Counter, t0: int, t1: int)
    ensures
        counter_events(a + b, c, t0, t1) == counter_events(a, c, t0, t1) + counter_events(
            b,
            c,
            t0,
            t1,
        ),
        loose_points(a + b, c, t0, t1) == loose_points(a, c, t0, t1) + loose_points(b, c, t0, t1),
    decreases b.len(),
{
    let (ea, eb) = (counter_events(a, c, t0, t1), counter_events(b, c, t0, t1));
    let (la, lb) = (loose_points(a, c, t0, t1), loose_points(b, c, t0, t1));
    if b.len() > 0 {
        lemma_joined_counters(a, b.drop_last(), c, t0, t1);
        assert((a + b).drop_last() =~= a + b.drop_last());
        assert((a + b).last() == b.last());
    } else {
        assert(a + b =~= a);
    }
    assert(counter_events(a + b, c, t0, t1) =~= ea + eb);
    assert(loose_points(a + b, c, t0, t1) =~= la + lb);
}

/// What was observed of a session, a sample of it showed.
proof fn lemma_counter_samples(
    hist: Seq<Sample>,
    c: Counter,
    t0: int,
    t1: int,
    k: Seq<char>,
)
    ensures
        points_of(counter_events(hist, c, t0, t1), k).len() > 0 ==> exists|i: int|
            0 <= i < hist.len() && sid_text((#[trigger] hist[i]).sid) == Some(k),
        loose_points(hist, c, t0, t1).len() > 0 ==> exists|i: int|
            0 <= i < hist.len() && sid_text((#[trigger] hist[i]).sid) is None,
    decreases hist.len(),
{
    if hist.len() > 0 {
        let head = hist.drop_last();
        lemma_counter_samples(head, c, t0, t1, k);
        let n = hist.len() - 1;
        assert(hist[n] == hist.last());
        let before = counter_events(head, c, t0, t1);
        assert(before.push((k, (hist.last().t, 0i64))).drop_last() =~= before);
        let events = counter_events(hist, c, t0, t1);
        if events != before {
            assert(events.drop_last() =~= before);
        }
        if exists|i: int| 0 <= i < head.len() && sid_text((#[trigger] head[i]).sid) == Some(k) {
            let i = choose|i: int|
                0 <= i < head.len() && sid_text((#[trigger] head[i]).sid) == Some(k);
            assert(sid_text(hist[i].sid) == Some(k));
        }
        if exists|i: int| 0 <= i < head.len() && sid_text((#[trigger] head[i]).sid) is None {
            let i = choose|i: int| 0 <= i < head.len() && sid_text((#[trigger] head[i]).sid) is None;
            assert(sid_text(hist[i].sid) is None);
        }
    }
}

proof fn lemma_climb_is_not_negative(p: Seq<Point>)
    ensures
        climb(p) >= 0,
        p.len() > 0 ==> most(p) >= least(p),
    decreases p.len(),
{
    if p.len() > 1 {
        lemma_climb_is_not_negative(p.drop_last());
    }
}

proof fn lemma_climbs_are_not_negative(events: Seq<Event>, n: nat)
    ensures
        climbs(events, n) >= 0,
    decreases n,
{
    if n > 0 {
        lemma_climbs_are_not_negative(events, (n - 1) as nat);
        lemma_climb_is_not_negative(points_of(events, keys_in(events)[n - 1]));
    }
}

proof fn lemma_joined_climbs(ea: Seq<Event>, eb: Seq<Event>, n: nat)
    requires
        forall|k: Seq<char>|
            (#[trigger] points_of(ea, k)).len() == 0 || points_of(eb, k).len() == 0,
        n <= keys_in(ea).len() + keys_in(eb).len(),
    ensures
        n <= keys_in(ea).len() ==> climbs(ea + eb, n) == climbs(ea, n),
        n >= keys_in(ea).len() ==> climbs(ea + eb, n) == climbs(ea, keys_in(ea).len()) + climbs(
            eb,
            (n - keys_in(ea).len()) as nat,
        ),
    decreases n,
{
    let (ka, kb) = (keys_in(ea), keys_in(eb));
    if n > 0 {
        lemma_joined_climbs(ea, eb, (n - 1) as nat);
        lemma_joined_keys(ea, eb);
        let k = (ka + kb)[n - 1];
        lemma_joined_points(ea, eb, k);
        lemma_keys_have_points(ea, k);
        lemma_keys_have_points(eb, k);
        if n <= ka.len() {
            assert(k == ka[n - 1] && ka.contains(k));
            assert(points_of(ea, k) + points_of(eb, k) =~= points_of(ea, k));
        } else {
            assert(k == kb[n - 1 - ka.len()] && kb.contains(k));
            assert(points_of(ea, k) + points_of(eb, k) =~= points_of(eb, k));
        }
    }
}

/// The burn of a counter adds up over sessions: that of two histories which have no session in
/// common is, taken together, the sum of the two.
pub proof fn the_burn_of_a_counter_adds_up(
    a: Seq<Sample>,
    b: Seq<Sample>,
    c: Counter,
    t0: int,
    t1: int,
)
    requires
        no_common_session(a, b),
    ensures
        session_delta(a + b, c, t0, t1) == burned_together(
            session_delta(a, c, t0, t1),
            session_delta(b, c, t0, t1),
        ),
{
    let (ea, eb) = (counter_events(a, c, t0, t1), counter_events(b, c, t0, t1));
    let (la, lb) = (loose_points(a, c, t0, t1), loose_points(b, c, t0, t1));
    lemma_joined_counters(a, b, c, t0, t1);
    assert forall|k: Seq<char>|
        (#[trigger] points_of(ea, k)).len() == 0 || points_of(eb, k).len() == 0 by {
        lemma_counter_samples(a, c, t0, t1, k);
        lemma_counter_samples(b, c, t0, t1, k);
        if points_of(ea, k).len() > 0 && points_of(eb, k).len() > 0 {
            let i = choose|i: int| 0 <= i < a.len() && sid_text((#[trigger] a[i]).sid) == Some(k);
            let j = choose|j: int| 0 <= j < b.len() && sid_text((#[trigger] b[j]).sid) == Some(k);
            assert(sid_text(a[i].sid) == sid_text(b[j].sid));
        }
    }
    assert(la.len() == 0 || lb.len() == 0) by {
        lemma_counter_samples(a, c, t0, t1, Seq::empty());
        lemma_counter_samples(b, c, t0, t1, Seq::empty());
        if la.len() > 0 && lb.len() > 0 {
            let i = choose|i: int| 0 <= i < a.len() && sid_text((#[trigger] a[i]).sid) is None;
            let j = choose|j: int| 0 <= j < b.len() && sid_text((#[trigger] b[j]).sid) is None;
            assert(sid_text(a[i].sid) == sid_text(b[j].sid));
        }
    }
    assert(la.len() == 0 ==> la + lb =~= lb);
    assert(lb.len() == 0 ==> la + lb =~= la);
    lemma_joined_keys(ea, eb);
    let (n, m) = (keys_in(ea).len(), keys_in(eb).len());
    lemma_joined_climbs(ea, eb, n + m);
    lemma_climbs_are_not_negative(ea, n);
    lemma_climbs_are_not_negative(eb, m);
    lemma_climb_is_not_negative(la);
    lemma_climb_is_not_negative(lb);
    assert(ea.len() == 0 ==> climbs(ea, n) == 0);
    assert(eb.len() == 0 ==> climbs(eb, m) == 0);
}

/// Whether a sample shows a counter between two moments, and its dollars are not an API key's.
pub open spec fn shows(s: Sample, c: Counter, t0: int, t1: int) -> bool {
    let subscription = s.sub || s.h5 is Some || s.d7 is Some || s.h5r is Some || s.d7r is Some;
    counted(s, c) is Some && t0 <= s.t <= t1 && (s.usd is None || subscription)
}

/// The counter of a sample.
pub open spec fn counted(s: Sample, c: Counter) -> Option<i64> {
    match c {
        Counter::Usd => s.usd,
        Counter::TokensIn => s.tin,
        Counter::TokensOut => s.tout,
    }
}

proof fn lemma_most(p: Seq<Point>)
    requires
        p.len() > 0,
    ensures
        forall|v: Point| #[trigger] p.contains(v) ==> least(p) <= v.1 <= most(p),
        exists|v: Point| #[trigger] p.contains(v) && v.1 == most(p),
        exists|v: Point| #[trigger] p.contains(v) && v.1 == least(p),
    decreases p.len(),
{
    if p.len() == 1 {
        assert(p.contains(p[0]));
    } else {
        let head = p.drop_last();
        lemma_most(head);
        assert(p =~= head.push(p.last()));
        let hi = choose|v: Point| #[trigger] head.contains(v) && v.1 == most(head);
        let lo = choose|v: Point| #[trigger] head.contains(v) && v.1 == least(head);
        lemma_push_contains(head, p.last(), hi);
        lemma_push_contains(head, p.last(), lo);
        lemma_push_contains(head, p.last(), p.last());
        assert forall|v: Point| #[trigger] p.contains(v) implies least(p) <= v.1 <= most(p) by {
            lemma_push_contains(head, p.last(), v);
        }
    }
}

/// The points of the one session that a history holds: those of its samples.
proof fn lemma_one_session(
    hist: Seq<Sample>,
    c: Counter,
    t0: int,
    t1: int,
    sid: Option<Seq<char>>,
    p: Point,
)
    requires
        forall|i: int| 0 <= i < hist.len() ==> sid_text((#[trigger] hist[i]).sid) == sid,
    ensures
        ({
            let shown = match sid {
                Some(k) => points_of(counter_events(hist, c, t0, t1), k),
                None => loose_points(hist, c, t0, t1),
            };
            shown.contains(p) <==> exists|i: int|
                0 <= i < hist.len() && shows(#[trigger] hist[i], c, t0, t1) && p == (
                    hist[i].t,
                    counted(hist[i], c)->0,
                )
        }),
        sid matches Some(k) ==> loose_points(hist, c, t0, t1).len() == 0 && (keys_in(
            counter_events(hist, c, t0, t1),
        ).len() == 0 || keys_in(counter_events(hist, c, t0, t1)) == seq![k]),
        sid is None ==> counter_events(hist, c, t0, t1).len() == 0,
    decreases hist.len(),
{
    if hist.len() > 0 {
        let head = hist.drop_last();
        let s = hist.last();
        assert forall|i: int| 0 <= i < head.len() implies sid_text((#[trigger] head[i]).sid)
            == sid by {
            assert(head[i] == hist[i]);
        }
        lemma_one_session(head, c, t0, t1, sid, p);
        let n = hist.len() - 1;
        assert(hist[n] == s && sid_text(s.sid) == sid);
        let before = counter_events(head, c, t0, t1);
        let events = counter_events(hist, c, t0, t1);
        let shown = |h: Seq<Sample>|
            match sid {
                Some(k) => points_of(counter_events(h, c, t0, t1), k),
                None => loose_points(h, c, t0, t1),
            };
        if shows(s, c, t0, t1) {
            let q: Point = (s.t, counted(s, c)->0);
            if sid is Some {
                assert(events.drop_last() =~= before);
                assert(keys_in(events) =~= seq![sid->0]) by {
                    if keys_in(before).len() > 0 {
                        assert(keys_in(before)[0] == sid->0);
                        assert(keys_in(before).contains(sid->0));
                    }
                }
            }
            assert(shown(hist) == shown(head).push(q));
            lemma_push_contains(shown(head), q, p);
        } else {
            assert(shown(hist) == shown(head));
        }
        if exists|i: int|
            0 <= i < head.len() && shows(#[trigger] head[i], c, t0, t1) && p == (
                head[i].t,
                counted(head[i], c)->0,
            ) {
            let i = choose|i: int|
                0 <= i < head.len() && shows(#[trigger] head[i], c, t0, t1) && p == (
                    head[i].t,
                    counted(head[i], c)->0,
                );
            assert(shows(hist[i], c, t0, t1));
        }
        if exists|i: int|
            0 <= i < hist.len() && shows(#[trigger] hist[i], c, t0, t1) && p == (
                hist[i].t,
                counted(hist[i], c)->0,
            ) {
            let i = choose|i: int|
                0 <= i < hist.len() && shows(#[trigger] hist[i], c, t0, t1) && p == (
                    hist[i].t,
                    counted(hist[i], c)->0,
                );
            if i < n {
                assert(shows(head[i], c, t0, t1));
            }
        }
    }
}

/// One session burned what lies between the highest and the lowest value of its counter between
/// the two moments, and nothing was observed of it only where no sample shows the counter.
pub proof fn one_session_burns_its_highest_less_its_lowest(
    hist: Seq<Sample>,
    c: Counter,
    t0: int,
    t1: int,
    hi: int,
    lo: int,
)
    requires
        forall|i: int|
            0 <= i < hist.len() ==> sid_text((#[trigger] hist[i]).sid) == sid_text(hist[0].sid),
        0 <= hi < hist.len(),
        0 <= lo < hist.len(),
        shows(hist[hi], c, t0, t1),
        shows(hist[lo], c, t0, t1),
        forall|i: int|
            0 <= i < hist.len() && shows(#[trigger] hist[i], c, t0, t1) ==> counted(hist[lo], c)->0
                <= counted(hist[i], c)->0 <= counted(hist[hi], c)->0,
    ensures
        session_delta(hist, c, t0, t1) == Some(
            clamp_i64(counted(hist[hi], c)->0 - counted(hist[lo], c)->0),
        ),
{
    let sid = sid_text(hist[0].sid);
    let events = counter_events(hist, c, t0, t1);
    let loose = loose_points(hist, c, t0, t1);
    let shown = match sid {
        Some(k) => points_of(events, k),
        None => loose,
    };
    let top: Point = (hist[hi].t, counted(hist[hi], c)->0);
    let low: Point = (hist[lo].t, counted(hist[lo], c)->0);
    lemma_one_session(hist, c, t0, t1, sid, top);
    lemma_one_session(hist, c, t0, t1, sid, low);
    assert(shown.contains(top) && shown.contains(low));
    lemma_most(shown);
    let a = choose|v: Point| #[trigger] shown.contains(v) && v.1 == most(shown);
    let b = choose|v: Point| #[trigger] shown.contains(v) && v.1 == least(shown);
    lemma_one_session(hist, c, t0, t1, sid, a);
    lemma_one_session(hist, c, t0, t1, sid, b);
    assert(climb(shown) == top.1 - low.1);
    if sid is Some {
        lemma_keys_have_points(events, sid->0);
        assert(keys_in(events) == seq![sid->0]);
        reveal_with_fuel(climbs, 2);
        assert(climbs(events, 1) == climb(shown));
        assert(events.len() > 0);
    }
}

/// Where no sample shows a counter between the two moments, nothing was observed of it.
pub proof fn what_no_sample_shows_was_not_observed(
    hist: Seq<Sample>,
    c: Counter,
    t0: int,
    t1: int,
)
    requires
        forall|i: int| 0 <= i < hist.len() ==> !shows(#[trigger] hist[i], c, t0, t1),
    ensures
        session_delta(hist, c, t0, t1) is None,
    decreases hist.len(),
{
    if hist.len() > 0 {
        let head = hist.drop_last();
        assert forall|i: int| 0 <= i < head.len() implies !shows(#[trigger] head[i], c, t0, t1) by {
            assert(head[i] == hist[i]);
        }
        what_no_sample_shows_was_not_observed(head, c, t0, t1);
        assert(!shows(hist[hist.len() - 1], c, t0, t1));
    }
}

} // verus!
