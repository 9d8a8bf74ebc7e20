//! Burn-rate maths over the sample history: a least-squares %/hour slope restricted to the
//! current reset segment (so a window reset never reads as negative burn), the inline
//! status-line readout with its conditional cap-ETA warning, and the richer analysis the
//! report prints.

use vstd::prelude::*;
use vstd::string::*;

use crate::double::{
    eta_at, gap_of, held_eta, held_gap, held_micros, held_whole, lemma_ends_before, lemma_eta_wf,
    Double, Held,
};
use crate::big::Big;
use crate::fmt::{dur_text, fmt_dur, fmt_rate, rate_text, suffix_colored, suffix_pair, suffix_plain};
use crate::history::{lacks_window_data, on_subscription, Sample, RATE_WINDOW_SECS};
use crate::num::{clamp_i64, micros_at, round_div, saturate, Micros, Num, UNIT};
use crate::series::{keys_in, lemma_keys_have_points, points_of, BySession, Event, Point};

verus! {

// ---------------------------------------------------------------------------------------
// Least squares
// ---------------------------------------------------------------------------------------

/// Microseconds in an hour.
pub const HOUR_MICROS: i64 = 3_600_000_000;

/// A clock reading in microseconds, and the amount observed then.
pub type Reading = (i128, i64);

pub open spec fn sum_x(p: Seq<(int, int)>) -> int
    decreases p.len(),
{
    if p.len() == 0 {
        0
    } else {
        sum_x(p.drop_last()) + p.last().0
    }
}

pub open spec fn sum_y(p: Seq<(int, int)>) -> int
    decreases p.len(),
{
    if p.len() == 0 {
        0
    } else {
        sum_y(p.drop_last()) + p.last().1
    }
}

pub open spec fn sum_xx(p: Seq<(int, int)>) -> int
    decreases p.len(),
{
    if p.len() == 0 {
        0
    } else {
        sum_xx(p.drop_last()) + p.last().0 * p.last().0
    }
}

pub open spec fn sum_xy(p: Seq<(int, int)>) -> int
    decreases p.len(),
{
    if p.len() == 0 {
        0
    } else {
        sum_xy(p.drop_last()) + p.last().0 * p.last().1
    }
}

/// `n` squared times the variance of the moments.
pub open spec fn spread(p: Seq<(int, int)>) -> int {
    p.len() * sum_xx(p) - sum_x(p) * sum_x(p)
}

/// `n` squared times the covariance of the moments and the amounts.
pub open spec fn covariation(p: Seq<(int, int)>) -> int {
    p.len() * sum_xy(p) - sum_x(p) * sum_y(p)
}

/// The slope of the least-squares line, in amount per hour, rounded to the nearest millionth.
/// Two moments at least are needed for there to be one.
pub open spec fn slope(p: Seq<(int, int)>) -> Option<int> {
    if p.len() < 2 || spread(p) == 0 {
        None
    } else {
        Some(clamp_i64(round_div(covariation(p) * HOUR_MICROS, spread(p))))
    }
}

pub open spec fn readings(p: Seq<Reading>) -> Seq<(int, int)> {
    Seq::new(p.len(), |i: int| (p[i].0 as int, p[i].1 as int))
}

/// The readings as seen from the moment `a` and the amount `b`.
pub open spec fn moved(p: Seq<(int, int)>, a: int, b: int) -> Seq<(int, int)> {
    Seq::new(p.len(), |i: int| (p[i].0 - a, p[i].1 - b))
}

proof fn lemma_moved_sums(p: Seq<(int, int)>, a: int, b: int)
    ensures
        sum_x(moved(p, a, b)) == sum_x(p) - p.len() * a,
        sum_y(moved(p, a, b)) == sum_y(p) - p.len() * b,
        sum_xx(moved(p, a, b)) == sum_xx(p) - 2 * (a * sum_x(p)) + p.len() * (a * a),
        sum_xy(moved(p, a, b)) == sum_xy(p) - b * sum_x(p) - a * sum_y(p) + p.len() * (a * b),
    decreases p.len(),
{
    let q = moved(p, a, b);
    if p.len() > 0 {
        let head = p.drop_last();
        let x = p.last().0;
        let y = p.last().1;
        lemma_moved_sums(head, a, b);
        assert(q.drop_last() =~= moved(head, a, b));
        let n = head.len() as int;
        let sx = sum_x(head);
        let sy = sum_y(head);
        assert((n + 1) * a == n * a + a) by (nonlinear_arith);
        assert((n + 1) * b == n * b + b) by (nonlinear_arith);
        assert((n + 1) * (a * a) == n * (a * a) + a * a) by (nonlinear_arith);
        assert((n + 1) * (a * b) == n * (a * b) + a * b) by (nonlinear_arith);
        assert(a * (sx + x) == a * sx + a * x) by (nonlinear_arith);
        assert(b * (sx + x) == b * sx + b * x) by (nonlinear_arith);
        assert(a * (sy + y) == a * sy + a * y) by (nonlinear_arith);
        assert((x - a) * (x - a) == x * x - 2 * (a * x) + a * a) by (nonlinear_arith);
        assert((x - a) * (y - b) == x * y - b * x - a * y + a * b) by (nonlinear_arith);
    } else {
        assert(a * 0 == 0 && b * 0 == 0) by (nonlinear_arith);
    }
}

/// The slope does not depend on where time or the amounts are counted from.
pub proof fn slope_ignores_the_origin(p: Seq<(int, int)>, a: int, b: int)
    ensures
        spread(moved(p, a, b)) == spread(p),
        covariation(moved(p, a, b)) == covariation(p),
        slope(moved(p, a, b)) == slope(p),
{
    lemma_moved_sums(p, a, b);
    let n = p.len() as int;
    let sx = sum_x(p);
    let sy = sum_y(p);
    let sxx = sum_xx(p);
    let sxy = sum_xy(p);
    assert(n * (sxx - 2 * (a * sx) + n * (a * a)) - (sx - n * a) * (sx - n * a) == n * sxx - sx
        * sx) by (nonlinear_arith);
    let na = n * a;
    let nb = n * b;
    let bsx = b * sx;
    let asy = a * sy;
    let nab = n * (a * b);
    assert((sx - na) * (sy - nb) == sx * sy - sx * nb - na * sy + na * nb) by (nonlinear_arith);
    assert(n * (sxy - bsx - asy + nab) == n * sxy - n * bsx - n * asy + n * nab)
        by (nonlinear_arith);
    assert(n * (b * sx) == sx * (n * b)) by (nonlinear_arith);
    assert(n * (a * sy) == (n * a) * sy) by (nonlinear_arith);
    assert(n * (n * (a * b)) == (n * a) * (n * b)) by (nonlinear_arith);
}

/// The squared distances of the moments of `p` from `x`, summed.
spec fn off(p: Seq<(int, int)>, x: int) -> int
    decreases p.len(),
{
    if p.len() == 0 {
        0
    } else {
        off(p.drop_last(), x) + (p.last().0 - x) * (p.last().0 - x)
    }
}

proof fn lemma_off(p: Seq<(int, int)>, x: int)
    ensures
        off(p, x) == sum_xx(p) - 2 * (x * sum_x(p)) + p.len() * (x * x),
        off(p, x) >= 0,
        forall|i: int| 0 <= i < p.len() && (#[trigger] p[i]).0 != x ==> off(p, x) > 0,
    decreases p.len(),
{
    if p.len() > 0 {
        let head = p.drop_last();
        lemma_off(head, x);
        let n = head.len() as int;
        let sx = sum_x(head);
        let l = p.last().0;
        assert((l - x) * (l - x) == l * l - 2 * (x * l) + x * x) by (nonlinear_arith);
        assert((l - x) * (l - x) >= 0) by (nonlinear_arith);
        assert(l != x ==> (l - x) * (l - x) > 0) by (nonlinear_arith);
        assert(x * (sx + l) == x * sx + x * l) by (nonlinear_arith);
        assert((n + 1) * (x * x) == n * (x * x) + x * x) by (nonlinear_arith);
        assert forall|i: int| 0 <= i < p.len() && (#[trigger] p[i]).0 != x implies off(p, x)
            > 0 by {
            if i < n {
                assert(head[i].0 != x);
            }
        }
    } else {
        assert(x * 0 == 0) by (nonlinear_arith);
    }
}

/// There is a slope exactly if two of the moments differ.
pub proof fn slope_needs_two_moments(p: Seq<(int, int)>)
    ensures
        spread(p) >= 0,
        slope(p) is Some <==> exists|i: int, j: int|
            0 <= i < p.len() && 0 <= j < p.len() && (#[trigger] p[i]).0 != (#[trigger] p[j]).0,
    decreases p.len(),
{
    if p.len() > 0 {
        let head = p.drop_last();
        slope_needs_two_moments(head);
        let n = head.len() as int;
        let sx = sum_x(head);
        let sxx = sum_xx(head);
        let x = p.last().0;
        lemma_off(head, x);
        assert((n + 1) * (sxx + x * x) - (sx + x) * (sx + x) == (n * sxx - sx * sx) + (sxx - 2 * (x
            * sx) + n * (x * x))) by (nonlinear_arith);
        assert(spread(p) == spread(head) + off(head, x));
        if exists|i: int, j: int|
            0 <= i < p.len() && 0 <= j < p.len() && (#[trigger] p[i]).0 != (#[trigger] p[j]).0 {
            let (i, j) = choose|i: int, j: int|
                0 <= i < p.len() && 0 <= j < p.len() && (#[trigger] p[i]).0 != (#[trigger] p[j]).0;
            assert(p[n].0 == x);
            if p[i].0 != x {
                assert(head[i].0 != x);
            } else {
                assert(head[j].0 != x);
            }
        } else {
            assert forall|i: int| 0 <= i < n implies (#[trigger] head[i]).0 == x by {
                assert(p[i].0 == p[n].0);
            }
            lemma_level(head, x);
            assert(n * (n * (x * x)) == (n * x) * (n * x)) by (nonlinear_arith);
            assert(n * (x * x) - 2 * (x * (n * x)) + n * (x * x) == 0) by (nonlinear_arith);
        }
    }
}

proof fn lemma_level(p: Seq<(int, int)>, x: int)
    requires
        forall|i: int| 0 <= i < p.len() ==> (#[trigger] p[i]).0 == x,
    ensures
        sum_x(p) == p.len() * x,
        sum_xx(p) == p.len() * (x * x),
    decreases p.len(),
{
    if p.len() > 0 {
        let head = p.drop_last();
        let n = head.len() as int;
        assert forall|i: int| 0 <= i < n implies (#[trigger] head[i]).0 == x by {
            assert(p[i].0 == x);
        }
        lemma_level(head, x);
        assert(p[n].0 == x);
        assert((n + 1) * x == n * x + x) by (nonlinear_arith);
        assert((n + 1) * (x * x) == n * (x * x) + x * x) by (nonlinear_arith);
    } else {
        assert(0 * x == 0 && 0 * (x * x) == 0) by (nonlinear_arith);
    }
}

/// Amounts that do not change have no slope but zero.
pub proof fn a_flat_series_has_slope_zero(p: Seq<(int, int)>, y: int)
    requires
        forall|i: int| 0 <= i < p.len() ==> (#[trigger] p[i]).1 == y,
        slope(p) is Some,
    ensures
        slope(p) == Some(0int),
{
    lemma_flat(p, y);
    slope_needs_two_moments(p);
    let n = p.len() as int;
    let sx = sum_x(p);
    let d = spread(p);
    assert(n * (y * sx) - sx * (n * y) == 0) by (nonlinear_arith);
    assert(0 * HOUR_MICROS == 0);
    assert((2 * 0 + d) / (2 * d) == 0) by (nonlinear_arith)
        requires
            d > 0,
    ;
}

proof fn lemma_flat(p: Seq<(int, int)>, y: int)
    requires
        forall|i: int| 0 <= i < p.len() ==> (#[trigger] p[i]).1 == y,
    ensures
        sum_y(p) == p.len() * y,
        sum_xy(p) == y * sum_x(p),
    decreases p.len(),
{
    if p.len() > 0 {
        let head = p.drop_last();
        let n = head.len() as int;
        assert forall|i: int| 0 <= i < n implies (#[trigger] head[i]).1 == y by {
            assert(p[i].1 == y);
        }
        lemma_flat(head, y);
        assert(p[n].1 == y);
        let x = p.last().0;
        let sx = sum_x(head);
        assert((n + 1) * y == n * y + y) by (nonlinear_arith);
        assert(y * (sx + x) == y * sx + x * y) by (nonlinear_arith);
    } else {
        assert(0 * y == 0 && y * 0 == 0) by (nonlinear_arith);
    }
}

fn gap(x: i128, from: i128) -> (d: u128)
    requires
        x >= from,
    ensures
        d == x - from,
{
    if from >= 0 || x < 0 {
        (x - from) as u128
    } else {
        // The two lie on either side of zero, where the distance may outgrow `i128`.
        (x as u128) + (-(from + 1)) as u128 + 1
    }
}

/// The four sums over readings, seen from the earliest moment and the least amount.
struct Sums {
    x: Big,
    y: Big,
    xx: Big,
    xy: Big,
}

fn sums_from(points: &[Reading], a: i128, b: i64) -> (r: Sums)
    requires
        forall|i: int| 0 <= i < points@.len() ==> (#[trigger] points@[i]).0 >= a && points@[i].1
            >= b,
    ensures
        ({
            let p = moved(readings(points@), a as int, b as int);
            &&& r.x@ == sum_x(p)
            &&& r.y@ == sum_y(p)
            &&& r.xx@ == sum_xx(p)
            &&& r.xy@ == sum_xy(p)
        }),
{
    let ghost p = moved(readings(points@), a as int, b as int);
    let mut x = Big::zero();
    let mut y = Big::zero();
    let mut xx = Big::zero();
    let mut xy = Big::zero();
    let mut i: usize = 0;
    assert(p.take(0) =~= Seq::<(int, int)>::empty());
    while i < points.len()
        invariant
            i <= points@.len(),
            p == moved(readings(points@), a as int, b as int),
            forall|k: int| 0 <= k < points@.len() ==> (#[trigger] points@[k]).0 >= a && points@[k].1
                >= b,
            x@ == sum_x(p.take(i as int)),
            y@ == sum_y(p.take(i as int)),
            xx@ == sum_xx(p.take(i as int)),
            xy@ == sum_xy(p.take(i as int)),
        decreases points@.len() - i,
    {
        let dx = Big::of(gap(points[i].0, a));
        let dy = Big::of((points[i].1 as i128 - b as i128) as u128);
        assert(p.take(i + 1).drop_last() =~= p.take(i as int));
        assert(p.take(i + 1).last() == p[i as int]);
        x = x.plus(&dx);
        y = y.plus(&dy);
        xx = xx.plus(&dx.times(&dx));
        xy = xy.plus(&dx.times(&dy));
        i = i + 1;
    }
    assert(p.take(i as int) =~= p);
    Sums { x, y, xx, xy }
}

/// The greatest `r` up to `limit` with `r * (a - b) <= d - c`.
fn quotient_upto(a: &Big, b: &Big, c: &Big, d: &Big, limit: u64) -> (r: u64)
    requires
        a@ > b@,
        d@ >= c@,
    ensures
        r == if (d@ - c@) / (a@ - b@) > limit {
            limit as int
        } else {
            (d@ - c@) / (a@ - b@)
        },
{
    let ghost q = a@ - b@;
    let ghost n = d@ - c@;
    let mut lo: u128 = 0;
    let mut hi: u128 = limit as u128 + 1;
    assert(0 * q == 0) by (nonlinear_arith);
    while hi - lo > 1
        invariant
            0 <= lo < hi <= limit + 1,
            q == a@ - b@,
            n == d@ - c@,
            lo * q <= n,
            hi <= limit ==> hi * q > n,
        decreases hi - lo,
    {
        let mid: u128 = lo + (hi - lo) / 2;
        let m = Big::of(mid);
        proof {
            assert(a@ * mid - b@ * mid == mid * q) by (nonlinear_arith)
                requires
                    q == a@ - b@,
            ;
        }
        if a.times(&m).plus(c).at_most(&b.times(&m).plus(d)) {
            lo = mid;
        } else {
            hi = mid;
        }
    }
    proof {
        assert(n / q >= lo) by (nonlinear_arith)
            requires
                lo * q <= n,
                q > 0,
        ;
        if hi <= limit {
            assert(n / q < hi) by (nonlinear_arith)
                requires
                    hi * q > n,
                    q > 0,
            ;
        }
    }
    lo as u64
}

/// Least-squares slope of amount against time, per hour.
pub fn slope_per_hr(points: &[Reading]) -> (r: Option<Micros>)
    ensures
        match slope(readings(points@)) {
            Some(v) => r matches Some(x) && x == v,
            None => r is None,
        },
{
    if points.len() < 2 {
        return None;
    }
    let mut a: i128 = points[0].0;
    let mut b: i64 = points[0].1;
    let mut i: usize = 1;
    while i < points.len()
        invariant
            1 <= i <= points@.len(),
            forall|k: int| 0 <= k < i ==> (#[trigger] points@[k]).0 >= a && points@[k].1 >= b,
        decreases points@.len() - i,
    {
        if points[i].0 < a {
            a = points[i].0;
        }
        if points[i].1 < b {
            b = points[i].1;
        }
        i = i + 1;
    }
    let s = sums_from(points, a, b);
    let n = Big::of(points.len() as u128);
    let up = n.times(&s.xy);
    let down = s.x.times(&s.y);
    let wide = n.times(&s.xx);
    let narrow = s.x.times(&s.x);
    let ghost p = readings(points@);
    proof {
        slope_ignores_the_origin(p, a as int, b as int);
        slope_needs_two_moments(p);
        assert(covariation(p) == up@ - down@);
        assert(spread(p) == wide@ - narrow@);
    }
    if wide.at_most(&narrow) {
        return None;
    }
    // Twice the rounded quotient's numerator and denominator, each as a difference.
    let two = Big::of(2);
    let scale = Big::of(2 * HOUR_MICROS as u128);
    let rising = down.at_most(&up);
    let (more, less) = if rising {
        (up, down)
    } else {
        (down, up)
    };
    let top = more.times(&scale).plus(&wide);
    let off = less.times(&scale).plus(&narrow);
    let limit: u64 = if rising {
        i64::MAX as u64
    } else {
        9_223_372_036_854_775_808
    };
    let ghost d = spread(p);
    let ghost c = more@ - less@;
    proof {
        assert(top@ - off@ == 2 * (c * HOUR_MICROS) + d) by (nonlinear_arith)
            requires
                top@ == more@ * (2 * HOUR_MICROS) + wide@,
                off@ == less@ * (2 * HOUR_MICROS) + narrow@,
                c == more@ - less@,
                d == wide@ - narrow@,
        ;
        assert(c * HOUR_MICROS >= 0) by (nonlinear_arith)
            requires
                c >= 0,
        ;
        assert(wide@ * two@ - narrow@ * two@ == 2 * d) by (nonlinear_arith)
            requires
                two@ == 2,
                d == wide@ - narrow@,
        ;
    }
    let q = quotient_upto(&wide.times(&two), &narrow.times(&two), &off, &top, limit);
    proof {
        assert((-c) * HOUR_MICROS == -(c * HOUR_MICROS)) by (nonlinear_arith);
        if !rising {
            assert(c * HOUR_MICROS > 0) by (nonlinear_arith)
                requires
                    c > 0,
            ;
        }
    }
    if rising {
        Some(q as i64)
    } else if q == 9_223_372_036_854_775_808 {
        Some(i64::MIN)
    } else {
        Some(-(q as i64))
    }
}

/// Observations as readings in microseconds.
pub open spec fn in_micros(p: Seq<Point>) -> Seq<Reading> {
    Seq::new(p.len(), |i: int| ((p[i].0 * UNIT) as i128, p[i].1))
}

// ---------------------------------------------------------------------------------------
// The rate of a window
// ---------------------------------------------------------------------------------------

/// Which window's fields to read off a sample.
#[derive(Clone, Copy, PartialEq, Eq, Debug, Structural)]
pub enum Win {
    FiveHour,
    SevenDay,
}

impl Win {
    pub open spec fn pct_in(self, s: Sample) -> Option<i64> {
        match self {
            Win::FiveHour => s.h5,
            Win::SevenDay => s.d7,
        }
    }

    pub open spec fn reset_in(self, s: Sample) -> Option<i64> {
        match self {
            Win::FiveHour => s.h5r,
            Win::SevenDay => s.d7r,
        }
    }

    pub fn pct(self, s: &Sample) -> (r: Option<Micros>)
        ensures
            r == self.pct_in(*s),
    {
        match self {
            Win::FiveHour => s.h5,
            Win::SevenDay => s.d7,
        }
    }

    pub fn reset(self, s: &Sample) -> (r: Option<Micros>)
        ensures
            r == self.reset_in(*s),
    {
        match self {
            Win::FiveHour => s.h5r,
            Win::SevenDay => s.d7r,
        }
    }
}

/// Whether a stored reset is the one a payload reports. A stored reset is always finite.
pub open spec fn same_reset(stored: Option<i64>, cur: Option<Num>) -> bool {
    match (stored, cur) {
        (None, None) => true,
        (Some(a), Some(Num::Finite(b))) => a == b,
        _ => false,
    }
}

fn is_same_reset(stored: Option<Micros>, cur: Option<Num>) -> (r: bool)
    ensures
        r == same_reset(stored, cur),
{
    match (stored, cur) {
        (None, None) => true,
        (Some(a), Some(Num::Finite(b))) => a == b,
        _ => false,
    }
}

/// The percentages reported in the current reset segment, with their moments.
pub open spec fn segment_of(hist: Seq<Sample>, win: Win, cur: Option<Num>) -> Seq<Point>
    decreases hist.len(),
{
    if hist.len() == 0 {
        Seq::empty()
    } else {
        let before = segment_of(hist.drop_last(), win, cur);
        let s = hist.last();
        match win.pct_in(s) {
            Some(p) if same_reset(win.reset_in(s), cur) => before.push((s.t, p)),
            _ => before,
        }
    }
}

fn segment(hist: &[Sample], win: Win, cur: Option<Num>) -> (r: Vec<Point>)
    ensures
        r@ == segment_of(hist@, win, cur),
{
    let mut v: Vec<Point> = Vec::new();
    let mut i: usize = 0;
    assert(hist@.take(0) =~= Seq::<Sample>::empty());
    while i < hist.len()
        invariant
            i <= hist@.len(),
            v@ == segment_of(hist@.take(i as int), win, cur),
        decreases hist@.len() - i,
    {
        assert(hist@.take(i + 1).drop_last() =~= hist@.take(i as int));
        assert(hist@.take(i + 1).last() == hist@[i as int]);
        if let Some(p) = win.pct(&hist[i]) {
            if is_same_reset(win.reset(&hist[i]), cur) {
                v.push((hist[i].t, p));
            }
        }
        i = i + 1;
    }
    assert(hist@.take(i as int) =~= hist@);
    v
}

/// The points no older than `window` microseconds.
pub open spec fn within(p: Seq<Point>, window: int, now: int) -> Seq<Point>
    decreases p.len(),
{
    if p.len() == 0 {
        Seq::empty()
    } else {
        let before = within(p.drop_last(), window, now);
        if now - p.last().0 * UNIT <= window {
            before.push(p.last())
        } else {
            before
        }
    }
}

/// The slope over the trailing window, or over the whole segment where the window holds fewer
/// than two points.
pub open spec fn segment_rate(seg: Seq<Point>, window: int, now: int) -> Option<int> {
    let recent = within(seg, window, now);
    slope(
        readings(
            in_micros(
                if recent.len() >= 2 {
                    recent
                } else {
                    seg
                },
            ),
        ),
    )
}

fn recent_points(seg: &Vec<Point>, window: i128, now: Micros) -> (r: Vec<Point>)
    ensures
        r@ == within(seg@, window as int, now as int),
{
    let mut v: Vec<Point> = Vec::new();
    let mut i: usize = 0;
    assert(seg@.take(0) =~= Seq::<Point>::empty());
    while i < seg.len()
        invariant
            i <= seg@.len(),
            v@ == within(seg@.take(i as int), window as int, now as int),
        decreases seg@.len() - i,
    {
        assert(seg@.take(i + 1).drop_last() =~= seg@.take(i as int));
        assert(seg@.take(i + 1).last() == seg@[i as int]);
        if now as i128 - micros_at(seg[i].0) <= window {
            v.push(seg[i]);
        }
        i = i + 1;
    }
    assert(seg@.take(i as int) =~= seg@);
    v
}

fn point_readings(p: &Vec<Point>) -> (r: Vec<Reading>)
    ensures
        r@ == in_micros(p@),
{
    let mut v: Vec<Reading> = Vec::new();
    let mut i: usize = 0;
    while i < p.len()
        invariant
            i <= p@.len(),
            v@ == in_micros(p@).take(i as int),
        decreases p@.len() - i,
    {
        v.push((micros_at(p[i].0), p[i].1));
        i = i + 1;
        assert(in_micros(p@).take(i as int) =~= in_micros(p@).take(i - 1).push(
            in_micros(p@)[i - 1],
        ));
    }
    assert(in_micros(p@).take(i as int) =~= in_micros(p@));
    v
}

fn slope_over(seg: &Vec<Point>, window: i128, now: Micros) -> (r: Option<Micros>)
    ensures
        match segment_rate(seg@, window as int, now as int) {
            Some(v) => r matches Some(x) && x == v,
            None => r is None,
        },
{
    let recent = recent_points(seg, window, now);
    let chosen = if recent.len() >= 2 {
        point_readings(&recent)
    } else {
        point_readings(seg)
    };
    slope_per_hr(chosen.as_slice())
}

/// The trailing window of the inline readout, in microseconds.
pub open spec fn rate_window() -> int {
    RATE_WINDOW_SECS * UNIT
}

/// %/hr over the recent window (status-line readout).
pub fn history_rate(hist: &[Sample], win: Win, cur_reset: Option<Num>, now: Micros) -> (r: Option<
    Micros,
>)
    ensures
        match segment_rate(segment_of(hist@, win, cur_reset), rate_window(), now as int) {
            Some(v) => r matches Some(x) && x == v,
            None => r is None,
        },
{
    slope_over(&segment(hist, win, cur_reset), micros_at(RATE_WINDOW_SECS), now)
}

// ---------------------------------------------------------------------------------------
// The readout
// ---------------------------------------------------------------------------------------

/// One hundred percent, in millionths.
pub const FULL_PCT: i64 = 100_000_000;

/// A burn up to this, in millionths of a percent an hour, is too little to warn of.
pub const MIN_CAP_RATE: i64 = 500_000;

/// Seconds until a window that is `p` full and fills at `rate` is full.
pub open spec fn cap_eta(p: int, rate: int) -> Held {
    held_eta(held_gap(FULL_PCT as int, p), rate)
}

/// Seconds until a window that is `p` full and fills at `rate` is full.
pub fn eta_to_cap(p: Micros, rate: Micros) -> (r: Double)
    requires
        rate > 0,
    ensures
        r@ == cap_eta(p as int, rate as int),
        r.wf(),
{
    eta_at(gap_of(FULL_PCT, p), rate)
}

/// Whether a window that is `p` full and fills at `rate` is full before it resets.
pub open spec fn caps_before(p: int, rate: int, reset: Num, now: int) -> bool {
    cap_eta(p, rate).digits > 0 && match reset {
        Num::Finite(r) => cap_eta(p, rate).below(held_gap(r as int, now)),
        Num::PosInf => true,
        _ => false,
    }
}

/// The cap warning: shown only where, at the current rate, the window is full before it
/// resets.
pub open spec fn cap_warning(
    pct: Option<Num>,
    reset: Option<Num>,
    rate: int,
    now: int,
) -> Option<Seq<char>> {
    match (pct, reset) {
        (Some(Num::Finite(p)), Some(r)) if p < FULL_PCT && rate > MIN_CAP_RATE && caps_before(
            p as int,
            rate,
            r,
            now,
        ) => Some("⚠ cap "@ + dur_text(clamp_i64(cap_eta(p as int, rate).whole()))),
        _ => None,
    }
}

pub open spec fn burn_body(rate: int) -> Seq<char> {
    "↑"@ + rate_text(
        if rate > 0 {
            rate
        } else {
            0
        },
    ) + "%/h"@
}

/// Inline burn readout. Returns `(plain, coloured)`; `("", "")` when there is no rate yet.
/// `plain` is used only for width measurement.
pub fn burn_suffix(
    pct: Option<Num>,
    reset_epoch: Option<Num>,
    rate: Option<Micros>,
    now: Micros,
) -> (r: (String, String))
    ensures
        match rate {
            None => r.0@ == Seq::<char>::empty() && r.1@ == Seq::<char>::empty(),
            Some(v) => ({
                let body = Some(burn_body(v as int));
                let warn = cap_warning(pct, reset_epoch, v as int, now as int);
                &&& r.0@ == suffix_plain(body, warn)
                &&& r.1@ == suffix_colored(body, warn)
            }),
        },
{
    let rate: i64 = match rate {
        Some(r) => r,
        None => {
            return (String::new(), String::new());
        },
    };
    let mut body = "↑".to_owned();
    body.append(
        fmt_rate(
            if rate > 0 {
                rate
            } else {
                0
            },
        ).as_str(),
    );
    body.append("%/h");
    let mut warn: Option<String> = None;
    if let (Some(Num::Finite(p)), Some(reset)) = (pct, reset_epoch) {
        if p < FULL_PCT && rate > MIN_CAP_RATE {
            let eta = eta_to_cap(p, rate);
            let first = eta.digits > 0 && match reset {
                Num::Finite(r) => eta.is_below(gap_of(r, now)),
                Num::PosInf => true,
                _ => false,
            };
            if first {
                let mut w = "⚠ cap ".to_owned();
                w.append(fmt_dur(eta.whole()).as_str());
                warn = Some(w);
            }
        }
    }
    suffix_pair(Some(body), warn)
}

/// The cap warning appears only where the window would be full before it resets. Where the reset
/// is at a whole second, the seconds that the warning names end before it.
pub proof fn a_cap_warning_lands_before_the_reset(pct: Num, reset: i64, rate: int, now: i64)
    requires
        cap_warning(Some(pct), Some(Num::Finite(reset)), rate, now as int) is Some,
    ensures
        pct.below(FULL_PCT as int),
        pct matches Num::Finite(p) && cap_eta(p as int, rate).below(
            held_gap(reset as int, now as int),
        ),
        reset as int % UNIT as int == 0 ==> (pct matches Num::Finite(p) && now + cap_eta(
            p as int,
            rate,
        ).whole() * UNIT < reset),
{
    if reset as int % UNIT as int == 0 {
        let e = cap_eta(pct->Finite_0 as int, rate);
        lemma_eta_wf(held_gap(FULL_PCT as int, pct->Finite_0 as int), rate);
        lemma_ends_before(e, reset as int / UNIT as int, now as int);
    }
}

// ---------------------------------------------------------------------------------------
// The report's analysis
// ---------------------------------------------------------------------------------------

/// `$`/`raw-token` per 1% conversions, anchored over the whole segment.
pub struct Conv {
    pub usd_per_pct: Option<Double>,
    pub tok_per_pct: Option<Double>,
}

pub struct Analysis {
    pub cur: Micros,
    pub reset: Option<Micros>,
    pub rate: Option<Micros>,
    pub conv: Option<Conv>,
}

impl Conv {
    /// Both conversions are doubles of an ordinary size.
    pub open spec fn wf(self) -> bool {
        &&& self.usd_per_pct matches Some(x) ==> x.wf() && -2_000 <= x.exp <= 2_000
        &&& self.tok_per_pct matches Some(x) ==> x.wf() && -2_000 <= x.exp <= 2_000
    }
}

impl Analysis {
    pub open spec fn wf(self) -> bool {
        self.conv matches Some(c) ==> c.wf()
    }
}

/// A cumulative counter that samples carry.
#[derive(Clone, Copy, PartialEq, Eq, Debug, Structural)]
pub enum Counter {
    Usd,
    TokensIn,
    TokensOut,
}

impl Counter {
    pub open spec fn value_in(self, s: Sample) -> Option<i64> {
        match self {
            Counter::Usd => s.usd,
            Counter::TokensIn => s.tin,
            Counter::TokensOut => s.tout,
        }
    }

    fn value(self, s: &Sample) -> (r: Option<i64>)
        ensures
            r == self.value_in(*s),
    {
        match self {
            Counter::Usd => s.usd,
            Counter::TokensIn => s.tin,
            Counter::TokensOut => s.tout,
        }
    }
}

/// Whether a sample takes part in the conversion anchored between two moments. One whose
/// dollars may be API-key spend stays out of subscription maths.
pub open spec fn anchors(s: Sample, t0: int, t1: int) -> bool {
    t0 <= s.t <= t1 && !(s.usd is Some && !on_subscription(s))
}

/// The counter of each session with an id, over the samples between two moments.
pub open spec fn counter_events(hist: Seq<Sample>, c: Counter, t0: int, t1: int) -> Seq<Event>
    decreases hist.len(),
{
    if hist.len() == 0 {
        Seq::empty()
    } else {
        let before = counter_events(hist.drop_last(), c, t0, t1);
        let s = hist.last();
        match (s.sid, c.value_in(s)) {
            (Some(k), Some(v)) if anchors(s, t0, t1) => before.push((k@, (s.t, v))),
            _ => before,
        }
    }
}

/// The counter over the samples without an id, which count as one session.
pub open spec fn loose_points(hist: Seq<Sample>, c: Counter, t0: int, t1: int) -> Seq<Point>
    decreases hist.len(),
{
    if hist.len() == 0 {
        Seq::empty()
    } else {
        let before = loose_points(hist.drop_last(), c, t0, t1);
        let s = hist.last();
        match (s.sid, c.value_in(s)) {
            (None, Some(v)) if anchors(s, t0, t1) => before.push((s.t, v)),
            _ => before,
        }
    }
}

pub open spec fn most(p: Seq<Point>) -> int
    decreases p.len(),
{
    if p.len() <= 1 {
        p[0].1 as int
    } else if p.last().1 > most(p.drop_last()) {
        p.last().1 as int
    } else {
        most(p.drop_last())
    }
}

pub open spec fn least(p: Seq<Point>) -> int
    decreases p.len(),
{
    if p.len() <= 1 {
        p[0].1 as int
    } else if p.last().1 < least(p.drop_last()) {
        p.last().1 as int
    } else {
        least(p.drop_last())
    }
}

/// How far a counter moved: its highest value less its lowest.
pub open spec fn climb(p: Seq<Point>) -> int {
    if p.len() == 0 {
        0
    } else {
        most(p) - least(p)
    }
}

pub open spec fn climbs(events: Seq<Event>, n: nat) -> int
    decreases n,
{
    if n == 0 {
        0
    } else {
        climbs(events, (n - 1) as nat) + climb(points_of(events, keys_in(events)[n - 1]))
    }
}

/// The burn of a counter between two moments, across sessions; `None` where nothing was
/// observed of it.
pub open spec fn session_delta(hist: Seq<Sample>, c: Counter, t0: int, t1: int) -> Option<int> {
    let events = counter_events(hist, c, t0, t1);
    let loose = loose_points(hist, c, t0, t1);
    if events.len() == 0 && loose.len() == 0 {
        None
    } else {
        Some(clamp_i64(climbs(events, keys_in(events).len()) + climb(loose)))
    }
}

fn climb_of(p: &Vec<Point>) -> (r: i128)
    ensures
        r == climb(p@),
        0 <= r <= u64::MAX,
{
    if p.len() == 0 {
        return 0;
    }
    let mut hi: i64 = p[0].1;
    let mut lo: i64 = p[0].1;
    let mut i: usize = 1;
    assert(p@.take(1)[0] == p@[0]);
    while i < p.len()
        invariant
            1 <= i <= p@.len(),
            hi == most(p@.take(i as int)),
            lo == least(p@.take(i as int)),
            lo <= hi,
        decreases p@.len() - i,
    {
        assert(p@.take(i + 1).drop_last() =~= p@.take(i as int));
        if p[i].1 > hi {
            hi = p[i].1;
        }
        if p[i].1 < lo {
            lo = p[i].1;
        }
        i = i + 1;
    }
    assert(p@.take(i as int) =~= p@);
    hi as i128 - lo as i128
}

proof fn lemma_events_have_keys(events: Seq<Event>)
    ensures
        events.len() > 0 ==> keys_in(events).len() > 0,
    decreases events.len(),
{
    if events.len() > 0 {
        lemma_keys_have_points(events, events.last().0);
    }
}

/// Sum, across sessions, each session's (max − min) of a cumulative counter over the
/// entries — i.e. total burn of that counter during the interval.
fn sum_session_delta(hist: &[Sample], c: Counter, t0: i64, t1: i64) -> (r: Option<i64>)
    ensures
        match session_delta(hist@, c, t0 as int, t1 as int) {
            Some(v) => r matches Some(x) && x == v && x >= 0,
            None => r is None,
        },
{
    let mut by_sid = BySession::new();
    let mut loose: Vec<Point> = Vec::new();
    let mut i: usize = 0;
    assert(hist@.take(0) =~= Seq::<Sample>::empty());
    while i < hist.len()
        invariant
            i <= hist@.len(),
            by_sid.wf(),
            by_sid@ == counter_events(hist@.take(i as int), c, t0 as int, t1 as int),
            loose@ == loose_points(hist@.take(i as int), c, t0 as int, t1 as int),
        decreases hist@.len() - i,
    {
        let s = &hist[i];
        assert(hist@.take(i + 1).drop_last() =~= hist@.take(i as int));
        assert(hist@.take(i + 1).last() == *s);
        if t0 <= s.t && s.t <= t1 && !lacks_window_data(s) {
            if let Some(v) = c.value(s) {
                match &s.sid {
                    Some(k) => by_sid.add(k.as_str(), s.t, v),
                    None => loose.push((s.t, v)),
                }
            }
        }
        i = i + 1;
    }
    assert(hist@.take(i as int) =~= hist@);
    let ghost events = by_sid@;
    proof {
        lemma_events_have_keys(events);
        assert(events.len() == 0 ==> keys_in(events).len() == 0);
    }
    if by_sid.len() == 0 && loose.len() == 0 {
        return None;
    }
    let mut total: i64 = 0;
    let mut j: usize = 0;
    while j < by_sid.len()
        invariant
            j <= keys_in(events).len(),
            by_sid.wf(),
            by_sid@ == events,
            climbs(events, j as nat) >= 0,
            total == clamp_i64(climbs(events, j as nat)),
        decreases keys_in(events).len() - j,
    {
        let series = by_sid.series(j);
        total = saturate(total as i128 + climb_of(&series.points));
        j = j + 1;
    }
    Some(saturate(total as i128 + climb_of(&loose)))
}

/// The last position that reports the window's percentage.
pub open spec fn last_report(hist: Seq<Sample>, win: Win) -> Option<int>
    decreases hist.len(),
{
    if hist.len() == 0 {
        None
    } else if win.pct_in(hist.last()) is Some {
        Some(hist.len() - 1)
    } else {
        last_report(hist.drop_last(), win)
    }
}

/// Conversions from one percent to dollars and to tokens, over a segment whose percentage
/// rose.
pub open spec fn conv_of(hist: Seq<Sample>, seg: Seq<Point>) -> Option<
    (Option<Held>, Option<Held>),
> {
    let rise = held_gap(seg.last().1 as int, seg[0].1 as int);
    if seg.len() < 2 || rise.digits == 0 {
        None
    } else {
        let t0 = seg[0].0 as int;
        let t1 = seg.last().0 as int;
        let usd = session_delta(hist, Counter::Usd, t0, t1);
        let tok = or_zero(session_delta(hist, Counter::TokensIn, t0, t1)) + or_zero(
            session_delta(hist, Counter::TokensOut, t0, t1),
        );
        Some(
            (
                match usd {
                    Some(u) if u > 0 => Some(held_micros(u as nat).over(rise)),
                    _ => None,
                },
                if tok > 0 {
                    Some(held_whole(tok as nat).over(rise))
                } else {
                    None
                },
            ),
        )
    }
}

pub open spec fn or_zero(v: Option<int>) -> int {
    match v {
        Some(x) => x,
        None => 0,
    }
}

pub open spec fn int_opt(v: Option<i64>) -> Option<int> {
    match v {
        Some(x) => Some(x as int),
        None => None,
    }
}

pub open spec fn held_of(v: Option<Double>) -> Option<Held> {
    match v {
        Some(x) => Some(x@),
        None => None,
    }
}

pub open spec fn conv_view(c: Option<Conv>) -> Option<(Option<Held>, Option<Held>)> {
    match c {
        Some(x) => Some((held_of(x.usd_per_pct), held_of(x.tok_per_pct))),
        None => None,
    }
}

pub open spec fn num_of(r: Option<i64>) -> Option<Num> {
    match r {
        Some(x) => Some(Num::Finite(x)),
        None => None,
    }
}

/// Whether `a` is the analysis of a window as the sample at `i` last reported it.
pub open spec fn analysis_at(
    a: Analysis,
    hist: Seq<Sample>,
    win: Win,
    i: int,
    window: int,
    now: int,
) -> bool {
    let s = hist[i];
    let seg = segment_of(hist, win, num_of(win.reset_in(s)));
    &&& win.pct_in(s) == Some(a.cur)
    &&& a.reset == win.reset_in(s)
    &&& int_opt(a.rate) == segment_rate(seg, window, now)
    &&& conv_view(a.conv) == conv_of(hist, seg)
}

/// Whether the window that a sample reported has reset since.
pub open spec fn has_reset(s: Sample, win: Win, now: int) -> bool {
    win.reset_in(s) matches Some(r) && r <= now
}

fn conversions(hist: &[Sample], seg: &Vec<Point>) -> (r: Option<Conv>)
    ensures
        conv_view(r) == conv_of(hist@, seg@),
        r matches Some(c) ==> c.wf(),
{
    if seg.len() < 2 {
        return None;
    }
    let first: Point = seg[0];
    let last: Point = seg[seg.len() - 1];
    let rise = gap_of(last.1, first.1);
    if rise.digits == 0 {
        return None;
    }
    let usd = sum_session_delta(hist, Counter::Usd, first.0, last.0);
    let tin = sum_session_delta(hist, Counter::TokensIn, first.0, last.0);
    let tout = sum_session_delta(hist, Counter::TokensOut, first.0, last.0);
    let tok: i128 = (match tin {
        Some(v) => v as i128,
        None => 0,
    }) + (match tout {
        Some(v) => v as i128,
        None => 0,
    });
    let usd_per_pct: Option<Double> = match usd {
        Some(u) => if u > 0 {
            Some(Double::of_micros(u as u64).over(rise))
        } else {
            None
        },
        None => None,
    };
    let tok_per_pct: Option<Double> = if tok > 0 {
        Some(Double::of_whole(tok as u64).over(rise))
    } else {
        None
    };
    Some(Conv { usd_per_pct, tok_per_pct })
}

/// Per-window analysis for the report: current %, recent rate, and the cost/token anchors.
///
/// The newest sample that reports the window speaks for it: a sample without percentages (a
/// resumed session's) hides nothing. A window that has reset since is no longer current.
pub fn analyze(hist: &[Sample], win: Win, window: i128, now: Micros) -> (r: Option<Analysis>)
    ensures
        match last_report(hist@, win) {
            None => r is None,
            Some(i) => if has_reset(hist@[i], win, now as int) {
                r is None
            } else {
                r matches Some(a) && analysis_at(a, hist@, win, i, window as int, now as int)
            },
        },
        r matches Some(a) ==> a.wf(),
{
    let mut n: usize = hist.len();
    assert(hist@.take(n as int) =~= hist@);
    while n > 0 && win.pct(&hist[n - 1]).is_none()
        invariant
            n <= hist@.len(),
            last_report(hist@, win) == last_report(hist@.take(n as int), win),
        decreases n,
    {
        assert(hist@.take(n as int).drop_last() =~= hist@.take(n - 1));
        n = n - 1;
    }
    if n == 0 {
        assert(hist@.take(0) =~= Seq::<Sample>::empty());
        return None;
    }
    assert(hist@.take(n as int).last() == hist@[n - 1]);
    let latest = &hist[n - 1];
    let reset = win.reset(latest);
    let cur = match win.pct(latest) {
        Some(p) => p,
        None => {
            return None;
        },
    };
    let current = match reset {
        Some(r) => {
            if r <= now {
                return None;
            }
            Some(Num::Finite(r))
        },
        None => None,
    };
    let seg = segment(hist, win, current);
    let rate = slope_over(&seg, window, now);
    let conv = conversions(hist, &seg);
    Some(Analysis { cur, reset, rate, conv })
}

pub(crate) proof fn lemma_last_report(hist: Seq<Sample>, win: Win)
    ensures
        match last_report(hist, win) {
            None => forall|j: int| 0 <= j < hist.len() ==> win.pct_in(#[trigger] hist[j]) is None,
            Some(i) => 0 <= i < hist.len() && win.pct_in(hist[i]) is Some && forall|j: int|
                i < j < hist.len() ==> win.pct_in(#[trigger] hist[j]) is None,
        },
    decreases hist.len(),
{
    if hist.len() > 0 && win.pct_in(hist.last()) is None {
        let head = hist.drop_last();
        lemma_last_report(head, win);
        assert forall|j: int| 0 <= j < head.len() implies head[j] == #[trigger] hist[j] by {}
    }
}

/// Samples without percentages cannot hide a window: the analysis speaks of the newest sample
/// that reports it, whatever was logged after.
pub proof fn samples_without_windows_hide_nothing(hist: Seq<Sample>, s: Sample, win: Win)
    requires
        win.pct_in(s) is None,
    ensures
        last_report(hist.push(s), win) == last_report(hist, win),
        last_report(hist, win) matches Some(i) ==> 0 <= i < hist.len() && win.pct_in(hist[i])
            is Some,
{
    assert(hist.push(s).drop_last() =~= hist);
    lemma_last_report(hist, win);
}

/// A sample from another reset segment has no part in the current rate.
pub proof fn another_segment_does_not_move_the_rate(
    hist: Seq<Sample>,
    s: Sample,
    win: Win,
    cur: Option<Num>,
)
    requires
        !same_reset(win.reset_in(s), cur),
    ensures
        segment_of(hist.push(s), win, cur) == segment_of(hist, win, cur),
{
    assert(hist.push(s).drop_last() =~= hist);
}

/// API-key dollars do not reach the conversion from percent to dollars: a sample with cost
/// and no trace of a window changes none of the counters it is anchored on.
pub proof fn api_spend_never_moves_the_anchor(
    hist: Seq<Sample>,
    s: Sample,
    c: Counter,
    t0: int,
    t1: int,
)
    requires
        s.usd is Some,
        !on_subscription(s),
    ensures
        session_delta(hist.push(s), c, t0, t1) == session_delta(hist, c, t0, t1),
{
    assert(hist.push(s).drop_last() =~= hist);
}

} // verus!
