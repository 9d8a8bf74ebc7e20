//! Laws of the predictions: when a window is full, and when a budget is spent.

use vstd::prelude::*;

use crate::burn::{burn_body, cap_eta, cap_warning};
use crate::double::{
    held_eta, held_gap, held_micros, held_whole, lemma_eta_falls, lemma_eta_halves, lemma_gap_grows,
    lemma_nearest_wf, Held,
};
use crate::num::{clamp_i64, Num, UNIT};
use crate::spend::{budget_eta, outcome, DayRate};

verus! {

/// A window that is fuller, or that fills faster, is full no later.
pub proof fn a_faster_burn_fills_a_window_no_later(p: i64, q: i64, rate: int, more: int)
    requires
        p <= q,
        0 < rate <= more,
    ensures
        !cap_eta(p as int, rate).below(cap_eta(q as int, more)),
{
    lemma_gap_grows(100_000_000, 100_000_000, q as int, p as int);
    lemma_eta_falls(
        held_gap(100_000_000, p as int),
        held_gap(100_000_000, q as int),
        rate,
        more,
    );
}

/// At twice the burn a window is full in half the time.
pub proof fn twice_the_burn_takes_half_the_time(p: i64, rate: int)
    requires
        rate > 0,
        held_gap(100_000_000, p as int).digits > 0,
    ensures
        cap_eta(p as int, 2 * rate) == (Held {
            digits: cap_eta(p as int, rate).digits,
            exp: cap_eta(p as int, rate).exp - 1,
        }),
{
    lemma_gap_grows(100_000_000, 100_000_000, p as int, p as int);
    lemma_eta_halves(held_gap(100_000_000, p as int), rate);
}

/// A warning that the cap comes before the reset stays where the window is fuller without being full,
/// where it fills faster, where it resets later, and where there is less time gone by.
pub proof fn a_cap_warning_stays_as_the_burn_grows(
    p: i64,
    q: i64,
    rate: int,
    more: int,
    reset: i64,
    later: i64,
    now: i64,
    earlier: i64,
)
    requires
        cap_warning(Some(Num::Finite(p)), Some(Num::Finite(reset)), rate, now as int) is Some,
        p <= q < 100_000_000,
        rate <= more,
        reset <= later,
        earlier <= now,
        held_gap(100_000_000, q as int).digits > 0,
    ensures
        cap_warning(Some(Num::Finite(q)), Some(Num::Finite(later)), more, earlier as int) is Some,
{
    a_faster_burn_fills_a_window_no_later(p, q, rate, more);
    lemma_gap_grows(reset as int, later as int, now as int, earlier as int);
    lemma_left_takes_time(held_gap(100_000_000, q as int), more);
    lemma_gap_grows(100_000_000, 100_000_000, q as int, q as int);
}

proof fn lemma_left_takes_time(left: Held, per_hr: int)
    requires
        left.digits > 0,
        per_hr > 0,
    ensures
        held_eta(left, per_hr).digits > 0,
{
    let r = held_micros(per_hr as nat);
    lemma_nearest_wf(per_hr as nat, 1_000_000, 0);
    let x = left.over(r);
    lemma_nearest_wf(left.digits, r.digits, left.exp - r.exp);
    let h = held_whole(3_600);
    lemma_nearest_wf(3_600, 1, 0);
    let n = x.digits * h.digits;
    assert(n > 0) by (nonlinear_arith)
        requires
            n == x.digits * h.digits,
            x.digits > 0,
            h.digits > 0,
    ;
    lemma_nearest_wf(n, 1, x.exp + h.exp);
}

/// Whether the budget is expected to be spent before midnight.
pub open spec fn hits(
    today: int,
    budget: int,
    rate: DayRate,
    next_midnight: int,
    now: int,
) -> bool {
    outcome(today, budget, Some(rate), next_midnight, now) is HitsBudget
}

/// A budget that is expected to be spent before midnight stays so at a greater rate, with more spent
/// already, unless it is spent by then, and with less time gone by. Only the part of the rate that a
/// warning may rest on counts.
pub proof fn a_budget_warning_stays_as_the_burn_grows(
    today: i64,
    more_today: i64,
    budget: i64,
    rate: DayRate,
    more: DayRate,
    next_midnight: i64,
    now: i64,
    earlier: i64,
)
    requires
        hits(today as int, budget as int, rate, next_midnight as int, now as int),
        today <= more_today < budget,
        rate.warn_per_hr <= more.warn_per_hr,
        earlier <= now,
        held_gap(budget as int, more_today as int).digits > 0,
    ensures
        hits(more_today as int, budget as int, more, next_midnight as int, earlier as int),
        !budget_eta(today as int, budget as int, rate.warn_per_hr as int).below(
            budget_eta(more_today as int, budget as int, more.warn_per_hr as int),
        ),
{
    let (r, s) = (rate.warn_per_hr as int, more.warn_per_hr as int);
    let end = clamp_i64(next_midnight * UNIT);
    lemma_gap_grows(budget as int, budget as int, more_today as int, today as int);
    lemma_eta_falls(
        held_gap(budget as int, today as int),
        held_gap(budget as int, more_today as int),
        r,
        s,
    );
    lemma_gap_grows(end, end, now as int, earlier as int);
    lemma_left_takes_time(held_gap(budget as int, more_today as int), s);
}

/// What is shown but not evidenced well enough moves no prediction: two rates that agree on what a
/// warning may rest on come to one outcome.
pub proof fn thin_evidence_moves_no_prediction(
    today: int,
    budget: int,
    a: DayRate,
    b: DayRate,
    next_midnight: int,
    now: int,
)
    requires
        a.warn_per_hr == b.warn_per_hr,
    ensures
        outcome(today, budget, Some(a), next_midnight, now) == outcome(
            today,
            budget,
            Some(b),
            next_midnight,
            now,
        ),
{
}

/// A burn below zero reads as none.
pub proof fn a_falling_percentage_reads_as_no_burn(rate: int)
    requires
        rate <= 0,
    ensures
        burn_body(rate) == burn_body(0),
{
}

} // verus!
