use quotaline::fmt::Hms;
use quotaline::localtime::{
    day_bounds, local_midnight, next_local_midnight, snap_to_local_midnight,
};

const DAY: i64 = 86_400;

/// A clock `offset` seconds ahead of UTC.
fn hms(t: i64, offset: i64) -> Option<Hms> {
    let local = t + offset;
    let s = local.rem_euclid(DAY);
    let wday = (local.div_euclid(DAY) + 4).rem_euclid(7);
    Some((
        (s / 3600) as i32,
        (s % 3600 / 60) as i32,
        (s % 60) as i32,
        wday as i32,
    ))
}

fn micros(secs: i64) -> i64 {
    secs * 1_000_000
}

#[test]
fn without_transitions_the_day_is_a_day() {
    for offset in [-43_200, -18_000, 0, 19_800, 50_400] {
        let clock = |t: i64| hms(t, offset);
        for now in [0, 1, 12_345_678, 1_785_207_000] {
            let (start, roll) = day_bounds(&clock, micros(now));
            assert_eq!(hms(start, offset).map(|c| (c.0, c.1, c.2)), Some((0, 0, 0)));
            assert!(start <= now && now < roll, "{start} {now} {roll}");
            assert_eq!(roll - start, DAY);
        }
    }
}

#[test]
fn a_spring_forward_day_is_an_hour_short() {
    // Clocks go from 02:00 to 03:00: five hours behind UTC before, four after.
    let midnight = 100 * DAY + 18_000;
    let clock = |t: i64| hms(t, if t < midnight + 7_200 { -18_000 } else { -14_400 });
    let now = midnight + 36_000;
    assert_eq!(local_midnight(&clock, micros(now)), Some(midnight));
    assert_eq!(next_local_midnight(&clock, micros(now)), Some(midnight + 23 * 3600));
    assert_eq!(day_bounds(&clock, micros(now)), (midnight, midnight + 23 * 3600));
}

#[test]
fn an_autumn_day_is_an_hour_long() {
    // Clocks go from 02:00 back to 01:00.
    let midnight = 300 * DAY + 14_400;
    let clock = |t: i64| hms(t, if t < midnight + 7_200 { -14_400 } else { -18_000 });
    let now = midnight + 36_000;
    assert_eq!(local_midnight(&clock, micros(now)), Some(midnight));
    assert_eq!(next_local_midnight(&clock, micros(now)), Some(midnight + 25 * 3600));
}

#[test]
fn a_midnight_that_does_not_exist_is_the_days_first_instant() {
    // Clocks go from 00:00 to 01:00, as in Havana.
    let gap = 200 * DAY + 18_000;
    let clock = |t: i64| hms(t, if t < gap { -18_000 } else { -14_400 });
    // Later that day: it started at the gap.
    assert_eq!(local_midnight(&clock, micros(gap + 18_000)), Some(gap));
    // The evening before: the rollover is the gap, not an hour into the past of it.
    assert_eq!(next_local_midnight(&clock, micros(gap - 18_000)), Some(gap));
    assert_eq!(snap_to_local_midnight(&clock, gap), Some(gap));
}

#[test]
fn without_local_time_the_day_is_utc() {
    let none = |_t: i64| -> Option<Hms> { None };
    assert_eq!(day_bounds(&none, micros(3 * DAY + 5)), (3 * DAY, 4 * DAY));
    assert_eq!(day_bounds(&none, -1), (-DAY, 0));
    assert_eq!(local_midnight(&none, 0), None);
    assert_eq!(snap_to_local_midnight(&none, 0), None);
    // A clock that fails for the rollover alone loses the start too.
    let half = |t: i64| if t > 3 * DAY + 82_400 { None } else { hms(t, 3_600) };
    let now = 3 * DAY + 82_000;
    assert!(local_midnight(&half, micros(now)).is_some());
    assert_eq!(day_bounds(&half, micros(now)), (3 * DAY, 4 * DAY));
}

#[test]
fn a_day_with_a_shift_holds_now() {
    let shift = 20 * DAY + 7 * 3_600;
    for (before, after) in [
        (-18_000, -14_400),
        (-14_400, -18_000),
        (3_600, 43_000),
        (43_000, 3_600),
        (0, -1_800),
    ] {
        for at in [0, 1, 7_199, 25_200, 43_200, 86_399] {
            // The shift falls `at` seconds into its day, as the clock before it has it.
            let shift = shift - (shift + before).rem_euclid(DAY) + at;
            if at > 0 && at + after - before > DAY {
                continue;
            }
            let clock = |t: i64| hms(t, if t < shift { before } else { after });
            for now in (shift - 2 * DAY..shift + 2 * DAY).step_by(577) {
                let (start, roll) = day_bounds(&clock, micros(now));
                assert!(start <= now && now < roll, "{before} {after} {at} {now}");
                for edge in [start, roll] {
                    let read = clock(edge).map(|c| (c.0, c.1, c.2));
                    assert!(read == Some((0, 0, 0)) || edge == shift, "{read:?}");
                }
            }
        }
    }
}

#[test]
fn a_jump_over_midnight_puts_the_start_ahead() {
    // From 23:30 to 00:30: the midnight that is left out is reckoned half an hour late.
    let shift = 20 * DAY - 1_800;
    let clock = |t: i64| hms(t, if t < shift { 0 } else { 3_600 });
    let (start, _) = day_bounds(&clock, micros(shift));
    assert_eq!(start, shift + 1_800);
}

#[test]
fn a_clock_that_changes_its_answer_is_taken_at_its_word() {
    let asked = std::cell::Cell::new(0);
    let clock = |t: i64| {
        asked.set(asked.get() + 1);
        if asked.get() == 1 {
            hms(t, 3_600)
        } else {
            hms(t, 0)
        }
    };
    // The first answer puts the candidate an hour past midnight, the second denies midnight there.
    assert_eq!(snap_to_local_midnight(&clock, 5 * DAY), Some(5 * DAY));
    assert_eq!(asked.get(), 2);
    assert_eq!(snap_to_local_midnight(&clock, 5 * DAY + 60), Some(5 * DAY));
}
