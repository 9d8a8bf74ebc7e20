//! Laws of the figures that doubles hold exactly: whole seconds, whole percents and whole tokens come
//! out as they are, and a part that is all of a whole is one hundred percent of it.

use vstd::prelude::*;

use crate::bars::{cells_filled, eighth, eighths_filled, filled, FULL};
use crate::burn::cap_eta;
use crate::double::{
    held_gap, held_micros, held_whole, lemma_gap_grows, lemma_nearest_grows,
    lemma_nearest_held, lemma_nearest_scale, lemma_nearest_shift_by, lemma_nearest_wf,
    lemma_nearest_zero, lemma_over_falls, lemma_over_grows, lemma_small_wholes, lemma_times_grows,
    lemma_whole_held, lemma_whole_steps, nearest, whole_gap, Held,
};
use crate::fmt::{clock_text, dur_text, Hms};
use crate::memory::{fullness, share, Gauge, MemStat};
use crate::num::{doublings, lemma_power_positive, natural_of, power, Num, UNIT};
use crate::report::headroom;
use crate::spend::budget_eta;
use crate::statusline::{
    budget_pct, held_part, part_of, reset_text_of, rollover_in, secs_until, width_of,
};
use crate::text::trimmed;

verus! {

// ---------------------------------------------------------------------------------------
// Whole numbers
// ---------------------------------------------------------------------------------------

/// A whole number of units, as a double, is that many: its whole part, and its millionths.
pub proof fn a_whole_number_is_held_as_it_is(w: nat)
    requires
        w <= 20_000_000_000_000,
    ensures
        held_whole(w).whole() == w,
        held_whole(w).cut() == w * 1_000_000,
        held_micros(w * 1_000_000) == held_whole(w),
{
    lemma_nearest_scale(w, 1, 0, 1_000_000);
    if w == 0 {
        lemma_nearest_zero(1, 0);
        assert(power(2, 0) == 1);
        assert(0nat * 1 * 1 == 0 && 0nat * 1_000_000 * 1 == 0);
    } else {
        lemma_whole_held(w);
        let u = doublings(w, 1);
        let p = power(2, u);
        lemma_power_positive(2, u);
        let x = held_whole(w);
        assert(power(2, 0) == 1);
        if u == 0 {
            assert(x.digits == w);
        }
        assert((w * p) * 1 == p * w) by (nonlinear_arith);
        assert((w * p) * 1_000_000 == p * (w * 1_000_000)) by (nonlinear_arith);
        vstd::arithmetic::div_mod::lemma_div_multiples_vanish(w as int, p as int);
        vstd::arithmetic::div_mod::lemma_div_multiples_vanish((w * 1_000_000) as int, p as int);
    }
}

proof fn lemma_whole_gap(a: int, b: int)
    requires
        -10_000_000_000_000 <= b <= a <= 10_000_000_000_000,
    ensures
        held_gap(a * 1_000_000, b * 1_000_000) == held_whole((a - b) as nat),
{
    lemma_whole_steps(a);
    lemma_whole_steps(b);
    let p = power(2, 72);
    let n = (a - b) as nat;
    assert(a * p - b * p == n * p) by (nonlinear_arith)
        requires
            n == a - b,
    ;
    lemma_power_positive(2, 72);
    assert(n * p >= 0) by (nonlinear_arith)
        requires
            p > 0,
            n >= 0,
    ;
    lemma_nearest_shift_by(n, 1, -72, 72);
    lemma_nearest_zero(1, -72);
    lemma_nearest_zero(1, 0);
    if n == 0 {
        assert(0nat * p == 0) by (nonlinear_arith);
    }
}

/// From one whole second to another there are as many seconds as lie between them, before and after.
pub proof fn a_reset_some_seconds_away_reads_so(a: int, b: int)
    requires
        -9_000_000_000_000 <= a <= 9_000_000_000_000,
        -9_000_000_000_000 <= b <= 9_000_000_000_000,
    ensures
        secs_until(Num::Finite((a * 1_000_000) as i64), b * 1_000_000) == a - b,
        whole_gap(a * 1_000_000, b * 1_000_000) == a - b,
{
    if a >= b {
        lemma_whole_gap(a, b);
        a_whole_number_is_held_as_it_is((a - b) as nat);
    } else {
        lemma_whole_gap(b, a);
        a_whole_number_is_held_as_it_is((b - a) as nat);
    }
}

/// A reset reads as the time until it, and the local clock at it where that is known; so does the end
/// of the day. Without a reset there is a dash.
pub proof fn a_reset_reads_as_the_time_until_it(a: int, b: int, at: Option<Hms>)
    requires
        -9_000_000_000_000 <= a <= 9_000_000_000_000,
        -9_000_000_000_000 <= b <= 9_000_000_000_000,
    ensures
        ({
            let clock: Seq<char> = match at {
                Some((h, m, s, wday)) => " @ "@ + clock_text(h as int, m as int, wday as int),
                None => Seq::empty(),
            };
            &&& reset_text_of(
                Some(Num::Finite((a * 1_000_000) as i64)),
                at,
                b * 1_000_000,
            ) == dur_text(a - b) + clock
            &&& rollover_in(a, at, b * 1_000_000) == dur_text(a - b) + clock
            &&& reset_text_of(None, at, b * 1_000_000) == "—"@
        }),
{
    let none = Seq::<char>::empty();
    a_reset_some_seconds_away_reads_so(a, b);
    assert(dur_text(a - b) + none =~= dur_text(a - b));
    let d = (a - b) * 1_000_000;
    assert(d / 1_000_000 == a - b && (-d) / 1_000_000 == b - a);
    assert(a * UNIT - b * 1_000_000 == d);
    match at {
        Some((h, m, s, wday)) => {
            let clock = clock_text(h as int, m as int, wday as int);
            assert(dur_text(a - b) + (" @ "@ + clock) =~= dur_text(a - b) + " @ "@ + clock);
        },
        None => {},
    }
}

// ---------------------------------------------------------------------------------------
// Parts of a whole
// ---------------------------------------------------------------------------------------

proof fn lemma_over_itself(x: Held)
    requires
        x.digits > 0,
    ensures
        x.over(x) == held_whole(1),
{
    assert(1 * x.digits == x.digits);
    lemma_nearest_scale(1, 1, 0, x.digits);
}

proof fn lemma_once(y: Held)
    requires
        y.wf(),
    ensures
        held_whole(1).times(y) == y,
{
    lemma_small_wholes();
    let top = held_whole(1).digits;
    if y.digits == 0 {
        assert(top * 0 == 0);
        lemma_nearest_zero(1, -52);
    } else {
        assert(top * y.digits == y.digits * top) by (nonlinear_arith);
        lemma_nearest_shift_by(y.digits, 1, y.exp - 52, 52);
        lemma_nearest_held(y.digits, y.exp);
    }
}

/// All of a context window of a whole number of tokens is that many tokens, and none of it is none.
pub proof fn all_of_a_window_is_its_size(tokens: int)
    requires
        0 <= tokens <= 9_000_000_000_000,
    ensures
        part_of(Num::Finite(100_000_000), Num::Finite((tokens * 1_000_000) as i64)) == Num::Finite(
            (tokens * 1_000_000) as i64,
        ),
        part_of(Num::Finite(0), Num::Finite((tokens * 1_000_000) as i64)) == Num::Finite(0),
{
    let w = tokens as nat;
    a_whole_number_is_held_as_it_is(100);
    a_whole_number_is_held_as_it_is(w);
    a_whole_number_is_held_as_it_is(0);
    lemma_nearest_wf(100, 1, 0);
    lemma_nearest_wf(w, 1, 0);
    lemma_over_itself(held_whole(100));
    lemma_once(held_whole(w));
    assert(held_part(100_000_000, w * 1_000_000) == held_whole(w));
    let hundred = held_whole(100);
    lemma_nearest_zero(1_000_000, 0);
    lemma_nearest_zero(hundred.digits, 0 - hundred.exp);
    lemma_nearest_zero(1, 0 + held_whole(w).exp);
    lemma_nearest_zero(1, 0);
    assert(0 * held_whole(w).digits == 0);
    assert(held_part(0, w * 1_000_000) == held_whole(0));
}

/// A greater share of a window is no fewer tokens.
pub proof fn a_greater_share_is_no_fewer_tokens(p: nat, q: nat, size: nat)
    requires
        p <= q,
    ensures
        !held_part(q, size).below(held_part(p, size)),
{
    lemma_nearest_grows(p, q, 1_000_000, 0);
    lemma_nearest_wf(100, 1, 0);
    lemma_over_grows(held_micros(p), held_micros(q), held_whole(100));
    lemma_times_grows(
        held_micros(p).over(held_whole(100)),
        held_micros(q).over(held_whole(100)),
        held_micros(size),
    );
}

/// A budget that is spent to the last millionth is one hundred percent spent, and one that is spent
/// many times over shows 999 percent.
pub proof fn a_spent_budget_is_all_of_it(budget: nat, total: nat)
    requires
        budget > 0,
    ensures
        budget_pct(budget, budget) == held_whole(100),
        budget_pct(budget, budget).cut() == 100_000_000,
        total >= 16 * budget ==> budget_pct(total, budget) == held_whole(999),
{
    let b = held_micros(budget);
    lemma_nearest_wf(budget, 1_000_000, 0);
    lemma_nearest_wf(100, 1, 0);
    lemma_over_itself(b);
    lemma_once(held_whole(100));
    lemma_nearest_grows(100, 999, 1, 0);
    a_whole_number_is_held_as_it_is(100);
    if total >= 16 * budget {
        assert(power(2, 4) == 16) by {
            reveal_with_fuel(power, 5);
        }
        lemma_nearest_shift_by(budget, 1_000_000, 0, 4);
        let many = held_micros(16 * budget);
        assert(many == nearest(budget, 1_000_000, 4));
        lemma_shifted(budget, 1_000_000, 0, 4);
        assert(many == (Held { digits: b.digits, exp: b.exp + 4 }));
        // Sixteen times the budget is sixteen times as much.
        let ratio = many.over(b);
        assert(1 * b.digits == b.digits);
        lemma_nearest_scale(1, 1, 4, b.digits);
        lemma_nearest_shift_by(1, 1, 0, 4);
        assert(ratio == held_whole(16));
        lemma_nearest_grows(16 * budget, total, 1_000_000, 0);
        lemma_over_grows(many, held_micros(total), b);
        lemma_times_grows(ratio, held_micros(total).over(b), held_whole(100));
        lemma_sixteen_hundred();
        lemma_nearest_grows(999, 1_600, 1, 0);
    }
}

proof fn lemma_shifted(n: nat, d: nat, e: int, k: nat)
    requires
        n > 0,
        d > 0,
    ensures
        nearest(n, d, e + k) == (Held {
            digits: nearest(n, d, e).digits,
            exp: nearest(n, d, e).exp + k,
        }),
{
    reveal(nearest);
}

proof fn lemma_sixteen_hundred()
    ensures
        held_whole(16).times(held_whole(100)) == held_whole(1_600),
{
    assert(power(2, 4) == 16) by {
        reveal_with_fuel(power, 5);
    }
    lemma_nearest_shift_by(1, 1, 0, 4);
    lemma_nearest_shift_by(100, 1, 0, 4);
    lemma_shifted(1, 1, 0, 4);
    lemma_shifted(100, 1, 0, 4);
    lemma_nearest_wf(1, 1, 0);
    lemma_nearest_wf(100, 1, 0);
    let (one, x) = (held_whole(1), held_whole(100));
    lemma_once(x);
    let n = one.digits * x.digits;
    assert(n > 0) by (nonlinear_arith)
        requires
            n == one.digits * x.digits,
            one.digits > 0,
            x.digits > 0,
    ;
    lemma_shifted(n, 1, one.exp + x.exp, 4);
}

/// The share of a budget never falls as the spend grows, nor as the budget shrinks.
pub proof fn the_share_of_a_budget_grows_with_the_spend(
    total: nat,
    more: nat,
    budget: nat,
    larger: nat,
)
    requires
        total <= more,
        0 < budget <= larger,
    ensures
        !budget_pct(more, budget).below(budget_pct(total, budget)),
        !budget_pct(total, budget).below(budget_pct(total, larger)),
{
    lemma_nearest_grows(total, more, 1_000_000, 0);
    lemma_nearest_grows(budget, larger, 1_000_000, 0);
    lemma_nearest_wf(budget, 1_000_000, 0);
    lemma_nearest_wf(larger, 1_000_000, 0);
    let (t, m, b, l) = (
        held_micros(total),
        held_micros(more),
        held_micros(budget),
        held_micros(larger),
    );
    lemma_over_grows(t, m, b);
    lemma_over_falls(t, b, l);
    lemma_times_grows(t.over(b), m.over(b), held_whole(100));
    lemma_times_grows(t.over(l), t.over(b), held_whole(100));
    lemma_nearest_wf(999, 1, 0);
}

// ---------------------------------------------------------------------------------------
// Headroom
// ---------------------------------------------------------------------------------------

/// A window that is so many whole percent full has the rest of a hundred left, at what one is worth;
/// one that is over a hundred is over by the rest.
pub proof fn the_headroom_is_what_is_left(cur: int, worth: Held)
    requires
        0 <= cur <= 1_000_000,
    ensures
        cur <= 100 ==> headroom(cur * 1_000_000, worth) == held_whole((100 - cur) as nat).times(
            worth,
        ),
        cur > 100 ==> headroom(cur * 1_000_000, worth) == held_whole((cur - 100) as nat).times(
            worth,
        ),
{
    if cur <= 100 {
        lemma_whole_gap(100, cur);
    } else {
        lemma_whole_gap(cur, 100);
    }
}

/// A fuller window has no more headroom.
pub proof fn a_fuller_window_has_no_more_headroom(cur: i64, fuller: i64, worth: Held)
    requires
        cur <= fuller <= 100_000_000,
    ensures
        !headroom(cur as int, worth).below(headroom(fuller as int, worth)),
{
    lemma_gap_grows(100_000_000, 100_000_000, fuller as int, cur as int);
    lemma_times_grows(
        held_gap(100_000_000, fuller as int),
        held_gap(100_000_000, cur as int),
        worth,
    );
}

// ---------------------------------------------------------------------------------------
// Predictions
// ---------------------------------------------------------------------------------------

/// What is burned in an hour at some rate takes an hour at that rate: a window with so many whole
/// percent left, and a budget with so many whole dollars.
pub proof fn what_an_hour_burns_takes_an_hour(from: int, to: int)
    requires
        0 <= from < to <= 1_000_000_000,
    ensures
        budget_eta(from * 1_000_000, to * 1_000_000, (to - from) * 1_000_000) == held_whole(3_600),
        to == 100 ==> cap_eta(from * 1_000_000, (to - from) * 1_000_000) == held_whole(3_600),
        held_whole(3_600).whole() == 3_600,
{
    let n = (to - from) as nat;
    lemma_whole_gap(to, from);
    a_whole_number_is_held_as_it_is(n);
    a_whole_number_is_held_as_it_is(3_600);
    lemma_nearest_wf(n, 1, 0);
    lemma_nearest_wf(3_600, 1, 0);
    lemma_over_itself(held_whole(n));
    lemma_once(held_whole(3_600));
}

/// A memory file that has reached one cap without going past the other is one hundred percent full.
pub proof fn a_file_at_its_cap_is_full(g: Gauge, stat: MemStat)
    requires
        g.wf(),
        stat.lines == g.line_cap && stat.chars <= g.char_cap || stat.lines <= g.line_cap
            && stat.chars == g.char_cap,
    ensures
        fullness(g, stat) == 100,
{
    let one = held_whole(1);
    let hundred = held_whole(100);
    lemma_share_up_to(stat.lines as nat, g.line_cap as nat);
    lemma_share_up_to(stat.chars as nat, g.char_cap as nat);
    lemma_nearest_wf(100, 1, 0);
    lemma_once(hundred);
    lemma_whole_rounds(100);
    let l = share(stat.lines as nat, g.line_cap as nat);
    let c = share(stat.chars as nat, g.char_cap as nat);
    assert(l == one || c == one);
    lemma_nearest_wf(1, 1, 0);
    assert(l.max(c) == one);
}

proof fn lemma_share_up_to(n: nat, cap: nat)
    requires
        n <= cap,
        cap > 0,
    ensures
        !held_whole(1).below(share(n, cap)),
        share(n, cap).wf(),
        n == cap ==> share(n, cap) == held_whole(1),
{
    lemma_nearest_wf(cap, 1, 0);
    lemma_nearest_grows(n, cap, 1, 0);
    lemma_over_itself(held_whole(cap));
    lemma_over_grows(held_whole(n), held_whole(cap), held_whole(cap));
}

// ---------------------------------------------------------------------------------------
// Cells
// ---------------------------------------------------------------------------------------

/// A double moved down by some places.
pub open spec fn moved_down(x: Held, k: nat) -> Held {
    Held { digits: x.digits, exp: x.exp - k }
}

proof fn lemma_times_moved(x: Held, y: Held, k: nat)
    requires
        x.digits > 0,
        y.digits > 0,
    ensures
        moved_down(x, k).times(y) == moved_down(x.times(y), k),
        x.times(moved_down(y, k)) == moved_down(x.times(y), k),
{
    let n = x.digits * y.digits;
    assert(n > 0) by (nonlinear_arith)
        requires
            n == x.digits * y.digits,
            x.digits > 0,
            y.digits > 0,
    ;
    lemma_shifted(n, 1, x.exp + y.exp - k, k);
}

/// Half of a whole number rounds up.
proof fn lemma_half_rounds_up(w: nat)
    requires
        0 < w <= 20_000_000_000_000,
    ensures
        moved_down(held_whole(w), 1).rounded() == (w + 1) as int / 2,
{
    lemma_whole_held(w);
    let u = doublings(w, 1);
    let p = power(2, u);
    lemma_power_positive(2, u);
    let x = moved_down(held_whole(w), 1);
    assert(x.exp == -(u as int) - 1);
    assert(power(2, u + 1) == 2 * p);
    assert((w * p) * 1 == w * p);
    let (n, d) = ((w * p) as int, (2 * p) as int);
    assert(x.rounded() == (2 * n + d) / (2 * d));
    assert(2 * n + d == (w + 1) * d && 2 * d == 2 * d) by (nonlinear_arith)
        requires
            n == w * p,
            d == 2 * p,
    ;
    assert((w + 1) * d == d * (w + 1)) by (nonlinear_arith);
    assert(2 * d == d * 2);
    vstd::arithmetic::div_mod::lemma_truncate_middle((w + 1) as int, d, 2);
    vstd::arithmetic::div_mod::lemma_div_denominator((w + 1) * d, d, 2);
    vstd::arithmetic::div_mod::lemma_div_multiples_vanish((w + 1) as int, d);
}

proof fn lemma_share_of_cells(v: nat, k: nat, w: nat)
    requires
        v * power(2, k) == 100_000_000,
        v > 0,
        0 < w,
    ensures
        filled(held_micros(v), w) == moved_down(held_whole(w), k),
{
    let hundred = held_micros(100_000_000);
    a_whole_number_is_held_as_it_is(100);
    lemma_nearest_wf(100, 1, 0);
    lemma_nearest_wf(v, 1_000_000, 0);
    lemma_nearest_wf(w, 1, 0);
    lemma_nearest_shift_by(v, 1_000_000, 0, k);
    lemma_shifted(v, 1_000_000, 0, k);
    let x = held_micros(v);
    assert(x == moved_down(hundred, k));
    lemma_over_itself(hundred);
    lemma_shifted(hundred.digits, hundred.digits, 0 - k, k);
    assert(x.over(held_whole(100)) == moved_down(held_whole(1), k));
    lemma_once(held_whole(w));
    lemma_nearest_wf(1, 1, 0);
    lemma_times_moved(held_whole(1), held_whole(w), k);
}

/// At fifty percent half of the cells are filled, and at a sixteenth half an eighth of each: what is
/// left over of a cell, or of an eighth, counts from its half on.
pub proof fn a_half_filled_cell_counts(width: nat)
    requires
        0 < width <= 20_000_000_000_000,
    ensures
        cells_filled(held_micros(50_000_000), width) == (width + 1) / 2,
        eighths_filled(held_micros(50_000_000), width) == 4 * width,
        eighths_filled(held_micros(6_250_000), width) == (width + 1) / 2,
{
    assert(power(2, 1) == 2 && power(2, 4) == 16 && power(2, 3) == 8) by {
        reveal_with_fuel(power, 5);
    }
    let w = held_whole(width);
    lemma_nearest_wf(width, 1, 0);
    lemma_nearest_wf(8, 1, 0);
    lemma_nearest_wf(1, 1, 0);
    lemma_share_of_cells(50_000_000, 1, width);
    lemma_share_of_cells(6_250_000, 4, width);
    lemma_half_rounds_up(width);
    // Eight is one moved up by three places.
    lemma_nearest_shift_by(1, 1, 0, 3);
    lemma_shifted(1, 1, 0, 3);
    let eight = held_whole(8);
    assert(held_whole(1) == moved_down(eight, 3));
    lemma_times_moved(w, eight, 3);
    assert(w.times(held_whole(1)) == w) by {
        lemma_once(w);
        assert(w.digits * held_whole(1).digits == held_whole(1).digits * w.digits)
            by (nonlinear_arith);
    }
    assert(w.times(eight) == (Held { digits: w.digits, exp: w.exp + 3 }));
    lemma_times_moved(w, eight, 1);
    lemma_times_moved(w, eight, 4);
    assert(filled(held_micros(6_250_000), width).times(eight) == moved_down(w, 1));
    assert(filled(held_micros(50_000_000), width).times(eight) == (Held {
        digits: w.digits,
        exp: w.exp + 2,
    }));
    // Half of the cells are four times as many eighths.
    lemma_nearest_shift_by(width, 1, 0, 2);
    lemma_shifted(width, 1, 0, 2);
    assert(power(2, 2) == 4) by {
        reveal_with_fuel(power, 3);
    }
    let four = power(2, 2);
    assert(width * four == 4 * width) by (nonlinear_arith)
        requires
            four == 4,
    ;
    assert(held_whole(4 * width) == (Held { digits: w.digits, exp: w.exp + 2 }));
    lemma_whole_rounds(4 * width);
}

proof fn lemma_whole_rounds(w: nat)
    requires
        0 < w <= 80_000_000_000_000,
    ensures
        held_whole(w).rounded() == w,
{
    lemma_whole_held(w);
    let u = doublings(w, 1);
    let p = power(2, u);
    lemma_power_positive(2, u);
    let x = held_whole(w);
    assert(power(2, 0) == 1);
    assert((w * p) * 1 == w * p);
    if u == 0 {
        assert(x.digits == w);
    } else {
        let (n, d) = ((w * p) as int, p as int);
        assert(x.rounded() == (2 * n + d) / (2 * d));
        assert(2 * n + d == (2 * d) * w + d) by (nonlinear_arith)
            requires
                n == w * p,
                d == p,
        ;
        vstd::arithmetic::div_mod::lemma_fundamental_div_mod_converse(
            2 * n + d,
            2 * d,
            w as int,
            d,
        );
    }
}

/// The partial blocks are the seven left blocks, one for each eighth, and the full block is the next.
pub proof fn a_partial_block_is_as_wide_as_its_eighths(n: int)
    requires
        1 <= n <= 7,
    ensures
        eighth(n) as int == 0x2590 - n,
        FULL as int == 0x2590 - 8,
{
}

/// The terminal is as wide as the environment says, if that is a positive number of columns, and 80
/// columns wide otherwise.
pub proof fn a_terminal_is_eighty_columns_unless_told(columns: Option<&str>)
    ensures
        columns is None ==> width_of(columns) == 80,
        columns matches Some(s) ==> match natural_of(trimmed(s@)) {
            Some(n) => (0 < n <= usize::MAX && n <= u64::MAX ==> width_of(columns) == n) && (n == 0
                ==> width_of(columns) == 80),
            None => width_of(columns) == 80,
        },
{
}

} // verus!
