//! The local day: where it started and where it rolls over.
//!
//! The standard library has no timezone support, so the local clock itself — a lookup of the
//! hour, minute, second and weekday at an epoch — is handed in. Everything decided from what
//! it answers is here.

use vstd::prelude::*;

use crate::fmt::Hms;
use crate::num::{clamp_i64, saturate, secs_of, trunc_div, Micros, UNIT};

verus! {

/// Seconds in a day.
pub const DAY_SECS: i64 = 86_400;

/// Microseconds in a day.
pub const DAY_MICROS: i64 = 86_400_000_000;

/// Whether `clock` answers every question as `c` does.
pub open spec fn answers_as<F: Fn(i64) -> Option<Hms>>(
    clock: F,
    c: spec_fn(i64) -> Option<Hms>,
) -> bool {
    forall|t: i64, a: Option<Hms>| #[trigger] call_ensures(clock, (t,), a) ==> a == c(t)
}

/// Seconds since midnight on a clock.
pub open spec fn sec_of_day(hms: Hms) -> int {
    hms.0 * 3_600 + hms.1 * 60 + hms.2
}

fn second_of_day(hms: Hms) -> (s: i64)
    ensures
        s == sec_of_day(hms),
        -10_000_000_000_000 <= s <= 10_000_000_000_000,
{
    hms.0 as i64 * 3_600 + hms.1 as i64 * 60 + hms.2 as i64
}

pub open spec fn reads_midnight(hms: Option<Hms>) -> bool {
    hms matches Some((0, 0, 0, _))
}

/// The local midnight nearest to `candidate`, on the clock `c`.
pub open spec fn snapped(candidate: i64, c: spec_fn(i64) -> Option<Hms>) -> Option<i64> {
    match c(candidate) {
        None => None,
        Some(hms) => {
            let off = sec_of_day(hms);
            let back = clamp_i64(candidate - off) as i64;
            if off == 0 {
                Some(candidate)
            } else if off > DAY_SECS / 2 {
                Some(clamp_i64(candidate + (DAY_SECS - off)) as i64)
            } else if reads_midnight(c(back)) {
                Some(back)
            } else {
                Some(candidate)
            }
        },
    }
}

/// Whether `r` is what some answers of `clock` snap `candidate` to: one at the candidate, and
/// one at the second that the first puts midnight at, where it asks for it.
pub open spec fn snaps_to<F: Fn(i64) -> Option<Hms>>(
    clock: F,
    candidate: i64,
    r: Option<i64>,
) -> bool {
    exists|a: Option<Hms>| #[trigger]
        call_ensures(clock, (candidate,), a) && match a {
            None => r is None,
            Some(hms) => {
                let off = sec_of_day(hms);
                let back = clamp_i64(candidate - off) as i64;
                if off == 0 {
                    r == Some(candidate)
                } else if off > DAY_SECS / 2 {
                    r == Some(clamp_i64(candidate + (DAY_SECS - off)) as i64)
                } else {
                    steps_back(clock, candidate, back, r)
                }
            },
        }
}

/// Whether `r` is `back` or `candidate` by whether some answer of `clock` at `back` reads
/// midnight.
pub open spec fn steps_back<F: Fn(i64) -> Option<Hms>>(
    clock: F,
    candidate: i64,
    back: i64,
    r: Option<i64>,
) -> bool {
    exists|b: Option<Hms>| #[trigger]
        call_ensures(clock, (back,), b) && r == Some(
            if reads_midnight(b) {
                back
            } else {
                candidate
            },
        )
}

/// Snap a candidate epoch to the local midnight nearest to it. Plain second-of-day
/// arithmetic misses local midnight by the shift amount whenever a DST transition falls
/// between the two instants, so the candidate is re-inspected and the residual removed.
/// In zones whose spring-forward lands exactly on midnight (Havana, Santiago, Cairo …)
/// 00:00 doesn't exist that day — subtracting the residual would land an hour into the
/// previous day (and can put the rollover in the past), so the subtraction is verified and
/// the candidate kept when no true midnight exists: the candidate is already the first
/// instant of that local day.
pub fn snap_to_local_midnight<F: Fn(i64) -> Option<Hms>>(clock: &F, candidate: i64) -> (r: Option<
    i64,
>)
    requires
        forall|t: i64| call_requires(*clock, (t,)),
    ensures
        forall|c: spec_fn(i64) -> Option<Hms>|
            answers_as(*clock, c) ==> r == #[trigger] snapped(candidate, c),
        snaps_to(*clock, candidate, r),
{
    let answer = clock(candidate);
    assert(call_ensures(*clock, (candidate,), answer));
    let off: i64 = match answer {
        None => {
            return None;
        },
        Some(hms) => second_of_day(hms),
    };
    if off == 0 {
        return Some(candidate);
    }
    if off > DAY_SECS / 2 {
        // Landed late in the previous local day; the day's first instant lies ahead (and
        // equals it even when a midnight transition means that instant reads as 01:00).
        return Some(saturate(candidate as i128 + (DAY_SECS - off) as i128));
    }
    let back: i64 = saturate(candidate as i128 - off as i128);
    let there = clock(back);
    let r = match there {
        Some((0, 0, 0, _)) => Some(back),
        _ => Some(candidate),  // midnight doesn't exist (DST gap at 00:00)
    };
    assert(call_ensures(*clock, (back,), there));
    assert(steps_back(*clock, candidate, back, r));
    r
}

/// The midnight a whole number of days after today's, as plain arithmetic has it, snapped.
pub open spec fn midnight_after(now: int, days: int, c: spec_fn(i64) -> Option<Hms>) -> Option<
    i64,
> {
    let secs = trunc_div(now, UNIT as int);
    match c(secs as i64) {
        None => None,
        Some(hms) => snapped((secs - sec_of_day(hms) + days * DAY_SECS) as i64, c),
    }
}

/// Whether `r` is a midnight so many days after today's that some answers of `clock` give.
pub open spec fn finds_midnight<F: Fn(i64) -> Option<Hms>>(
    clock: F,
    now: int,
    days: int,
    r: Option<i64>,
) -> bool {
    let secs = trunc_div(now, UNIT as int);
    exists|a: Option<Hms>| #[trigger]
        call_ensures(clock, (secs as i64,), a) && match a {
            None => r is None,
            Some(hms) => snaps_to(
                clock,
                (secs - sec_of_day(hms) + days * DAY_SECS) as i64,
                r,
            ),
        }
}

/// Epoch of today's local midnight — the start of the "spent today" window.
pub fn local_midnight<F: Fn(i64) -> Option<Hms>>(clock: &F, now: Micros) -> (r: Option<i64>)
    requires
        forall|t: i64| call_requires(*clock, (t,)),
    ensures
        forall|c: spec_fn(i64) -> Option<Hms>|
            answers_as(*clock, c) ==> r == #[trigger] midnight_after(now as int, 0, c),
        finds_midnight(*clock, now as int, 0, r),
{
    let secs = secs_of(now);
    let answer = clock(secs);
    assert(call_ensures(*clock, (secs,), answer));
    match answer {
        None => None,
        Some(hms) => snap_to_local_midnight(clock, secs - second_of_day(hms)),
    }
}

/// Epoch of the next local midnight after `now` — the "spent today" rollover. Derived with
/// its own snap rather than `local_midnight + 86_400`, since a DST transition later today
/// shifts the rollover but not the start.
pub fn next_local_midnight<F: Fn(i64) -> Option<Hms>>(clock: &F, now: Micros) -> (r: Option<i64>)
    requires
        forall|t: i64| call_requires(*clock, (t,)),
    ensures
        forall|c: spec_fn(i64) -> Option<Hms>|
            answers_as(*clock, c) ==> r == #[trigger] midnight_after(now as int, 1, c),
        finds_midnight(*clock, now as int, 1, r),
{
    let secs = secs_of(now);
    let answer = clock(secs);
    assert(call_ensures(*clock, (secs,), answer));
    match answer {
        None => None,
        Some(hms) => snap_to_local_midnight(clock, secs - second_of_day(hms) + DAY_SECS),
    }
}

/// Today's UTC midnight and the next.
pub open spec fn utc_day(now: int) -> (i64, i64) {
    let start = now / (DAY_MICROS as int) * DAY_SECS;
    (start as i64, (start + DAY_SECS) as i64)
}

/// The day window on the clock `c`, or the UTC day where the clock cannot tell.
pub open spec fn day_on(now: int, c: spec_fn(i64) -> Option<Hms>) -> (i64, i64) {
    match (midnight_after(now, 0, c), midnight_after(now, 1, c)) {
        (Some(start), Some(roll)) => (start, roll),
        _ => utc_day(now),
    }
}

/// Whether `r` is a day window that some answers of `clock` give: both its midnights, or the
/// UTC day where one is missing.
pub open spec fn spans_day<F: Fn(i64) -> Option<Hms>>(clock: F, now: int, r: (i64, i64)) -> bool {
    exists|start: Option<i64>, roll: Option<i64>| #[trigger]
        finds_midnight(clock, now, 0, start) && #[trigger] finds_midnight(clock, now, 1, roll)
            && r == match (start, roll) {
            (Some(s), Some(e)) => (s, e),
            _ => utc_day(now),
        }
}

fn utc_bounds(now: Micros) -> (r: (i64, i64))
    ensures
        r == utc_day(now as int),
{
    // A whole number of days past the least `i64`, so the quotient is of a natural number.
    let q: i128 = (now as i128 + 200_000_000 * 86_400_000_000) / 86_400_000_000 - 200_000_000;
    assert(q == now as int / 86_400_000_000);
    let start: i64 = (q * 86_400) as i64;
    (start, start + DAY_SECS)
}

/// The day window bounds `(start, rollover)`, falling back to UTC midnights when local
/// time is unavailable — a stable rollover beats none. The fallback is wholesale so the
/// pair can never mix a local start with a UTC rollover.
pub fn day_bounds<F: Fn(i64) -> Option<Hms>>(clock: &F, now: Micros) -> (r: (i64, i64))
    requires
        forall|t: i64| call_requires(*clock, (t,)),
    ensures
        forall|c: spec_fn(i64) -> Option<Hms>|
            answers_as(*clock, c) ==> r == #[trigger] day_on(now as int, c),
        spans_day(*clock, now as int, r),
{
    let today = local_midnight(clock, now);
    let tomorrow = next_local_midnight(clock, now);
    assert(finds_midnight(*clock, now as int, 0, today));
    assert(finds_midnight(*clock, now as int, 1, tomorrow));
    if let (Some(start), Some(roll)) = (today, tomorrow) {
        return (start, roll);
    }
    utc_bounds(now)
}

/// A clock that cannot tell gives the UTC day, which holds now and is a day long.
pub proof fn without_local_time_the_day_is_utc(now: i64)
    ensures
        ({
            let (start, roll) = day_on(now as int, |t: i64| None);
            &&& start * UNIT <= now < roll * UNIT
            &&& roll - start == DAY_SECS
            &&& start as int % DAY_SECS as int == 0
        }),
{
    let q = now as int / 86_400_000_000;
    assert(q * 86_400_000_000 <= now < (q + 1) * 86_400_000_000);
    assert((q * 86_400) % 86_400 == 0);
}

/// What a clock `offset` seconds ahead of UTC reads.
pub open spec fn fixed_zone(offset: int) -> spec_fn(i64) -> Option<Hms> {
    |t: i64| Some(hms_at((t + offset) % (DAY_SECS as int)))
}

/// The clock reading `s` seconds after midnight.
pub open spec fn hms_at(s: int) -> Hms {
    ((s / 3_600) as i32, (s % 3_600 / 60) as i32, (s % 60) as i32, 0i32)
}

proof fn lemma_hms_at(s: int)
    requires
        0 <= s < DAY_SECS,
    ensures
        sec_of_day(hms_at(s)) == s,
        s == 0 ==> reads_midnight(Some(hms_at(s))),
{
    let r = s % 3_600;
    assert(s == s / 3_600 * 3_600 + r);
    assert(r == r / 60 * 60 + r % 60);
    assert(s % 60 == r % 60);
}

proof fn lemma_whole_day(t: int)
    ensures
        (t - t % 86_400) % 86_400 == 0,
        (t - t % 86_400 + 86_400) % 86_400 == 0,
{
}

/// In a zone without transitions the day starts at a moment that reads midnight, holds now,
/// and rolls over a day later.
pub proof fn a_day_in_a_fixed_zone_holds_now(now: i64, offset: int)
    requires
        0 <= now,
        -DAY_SECS < offset < DAY_SECS,
    ensures
        ({
            let c = fixed_zone(offset);
            let (start, roll) = day_on(now as int, c);
            &&& reads_midnight(c(start)) && reads_midnight(c(roll))
            &&& start * UNIT <= now < roll * UNIT
            &&& roll - start == DAY_SECS
        }),
{
    let c = fixed_zone(offset);
    let secs = now as int / 1_000_000;
    let t = secs + offset;
    let s = t % 86_400;
    lemma_hms_at(s);
    lemma_hms_at(0);
    lemma_whole_day(t);
    let start = (secs - s) as i64;
    let roll = (secs - s + DAY_SECS) as i64;
    assert(c(secs as i64) == Some(hms_at(s)));
    assert(start + offset == t - t % 86_400);
    assert(c(start) == Some(hms_at(0)));
    assert(c(roll) == Some(hms_at(0)));
    assert(snapped(start, c) == Some(start));
    assert(snapped(roll, c) == Some(roll));
    assert(midnight_after(now as int, 0, c) == Some(start));
    assert(midnight_after(now as int, 1, c) == Some(roll));
    assert(secs * 1_000_000 <= now < (secs + 1) * 1_000_000);
}

/// What a clock reads whose offset from UTC is `off` at each second.
pub open spec fn zone(off: spec_fn(int) -> int) -> spec_fn(i64) -> Option<Hms> {
    |t: i64| Some(hms_at((t + off(t as int)) % (DAY_SECS as int)))
}

/// Whether a zone's offset goes from `before` to `after` at `shift`, and at no other second
/// within two days of `secs`.
pub open spec fn shifts_once(
    off: spec_fn(int) -> int,
    secs: int,
    shift: int,
    before: int,
    after: int,
) -> bool {
    forall|t: int|
        secs - 2 * DAY_SECS <= t <= secs + 2 * DAY_SECS ==> #[trigger] off(t) == if t < shift {
            before
        } else {
            after
        }
}

/// Whether a shift leaves a midnight out that lies strictly between what the clock would have
/// read and what it reads. A shift that starts at midnight, or ends there, does not.
pub open spec fn jumps_midnight(shift: int, before: int, after: int) -> bool {
    exists|day: int| shift + before < #[trigger] (day * DAY_SECS) < shift + after
}

/// In a zone whose offset shifts by less than twelve hours, and not over a midnight, the day
/// holds the second of now, and from the epoch on it holds now. It starts and rolls over at a
/// moment that reads midnight, or at the shift itself where that leaves no such moment.
pub proof fn a_day_with_a_shift_holds_now(
    now: i64,
    off: spec_fn(int) -> int,
    shift: int,
    before: int,
    after: int,
)
    requires
        -DAY_SECS < before < DAY_SECS,
        -DAY_SECS < after < DAY_SECS,
        -DAY_SECS < 2 * (after - before) < DAY_SECS,
        shifts_once(off, trunc_div(now as int, UNIT as int), shift, before, after),
        !jumps_midnight(shift, before, after),
    ensures
        ({
            let c = zone(off);
            let (start, roll) = day_on(now as int, c);
            &&& start <= trunc_div(now as int, UNIT as int) < roll
            &&& 0 <= now ==> start * UNIT <= now
            &&& now < roll * UNIT
            &&& reads_midnight(c(start)) || start == shift
            &&& reads_midnight(c(roll)) || roll == shift
        }),
{
    let c = zone(off);
    let secs = trunc_div(now as int, UNIT as int);
    let here = off(secs);
    let s = (secs + here) % 86_400;
    let day = (secs + here) / 86_400;
    assert(secs + here == day * 86_400 + s);
    let start = lemma_snap_in_zone(secs, off, shift, before, after, day);
    let roll = lemma_snap_in_zone(secs, off, shift, before, after, day + 1);
    lemma_hms_at(s);
    assert(c(secs as i64) == Some(hms_at(s)));
    assert(midnight_after(now as int, 0, c) == Some(start));
    assert(midnight_after(now as int, 1, c) == Some(roll));
    assert(now < (secs + 1) * 1_000_000);
}

/// What a zone's clock reads at a second whose local time is `d` seconds into `day`.
proof fn lemma_reading(off: spec_fn(int) -> int, t: i64, day: int, d: int) -> (hms: Hms)
    requires
        t + off(t as int) == day * 86_400 + d,
        0 <= d < DAY_SECS,
    ensures
        zone(off)(t) == Some(hms),
        sec_of_day(hms) == d,
        reads_midnight(Some(hms)) <==> d == 0,
{
    assert((day * 86_400 + d) % 86_400 == d);
    lemma_hms_at(d);
    hms_at(d)
}

/// Where the midnight of a day lands that is reckoned by the offset of now, which is on that
/// day or on the one before it.
proof fn lemma_snap_in_zone(
    secs: int,
    off: spec_fn(int) -> int,
    shift: int,
    before: int,
    after: int,
    day: int,
) -> (r: i64)
    requires
        -0x7fff_ffff_ffff <= secs <= 0x7fff_ffff_ffff,
        -DAY_SECS < before < DAY_SECS,
        -DAY_SECS < after < DAY_SECS,
        -DAY_SECS < 2 * (after - before) < DAY_SECS,
        shifts_once(off, secs, shift, before, after),
        !jumps_midnight(shift, before, after),
        (day - 1) * 86_400 <= secs + off(secs) < (day + 1) * 86_400,
    ensures
        snapped((day * 86_400 - off(secs)) as i64, zone(off)) == Some(r),
        day * 86_400 <= secs + off(secs) ==> r <= secs,
        secs + off(secs) < day * 86_400 ==> secs < r,
        reads_midnight(zone(off)(r)) || r == shift,
{
    let c = zone(off);
    let here = off(secs);
    let k = (day * 86_400 - here) as i64;
    let there = off(k as int);
    let delta = there - here;
    assert(here == before || here == after);
    assert(there == before || there == after);
    assert(!(shift + before < day * DAY_SECS < shift + after));
    if delta == 0 {
        lemma_reading(off, k, day, 0);
        k
    } else if delta > 0 {
        lemma_reading(off, k, day, delta);
        let back = (k - delta) as i64;
        let then = off(back as int);
        assert(then == before || then == after);
        if then == there {
            lemma_reading(off, back, day, 0);
            assert(snapped(k, c) == Some(back));
            back
        } else {
            lemma_reading(off, back, day - 1, 86_400 - delta);
            assert(snapped(k, c) == Some(k));
            k
        }
    } else {
        lemma_reading(off, k, day - 1, 86_400 + delta);
        let ahead = (k - delta) as i64;
        let then = off(ahead as int);
        assert(snapped(k, c) == Some(ahead));
        assert(then == before || then == after);
        if then == there {
            lemma_reading(off, ahead, day, 0);
        }
        ahead
    }
}

} // verus!
