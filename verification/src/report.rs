//! The on-demand burn-rate + headroom report, plus a real-$ day section for API-key sessions.

use vstd::prelude::*;
use vstd::string::*;

use crate::bars::{simple_bar, simple_bar_text};
use crate::burn::{
    analyze, analysis_at, cap_eta, eta_to_cap, has_reset, last_report, Analysis, Conv, Win, FULL_PCT,
};
use crate::double::{
    gap_of, held_gap, held_pct, held_text, pct_of, print_limit, push_held, whole_gap,
    whole_gap_of, Double, Held,
};
use crate::fmt::{
    band, color_for, dur_text, fmt_clock, fmt_dur, fmt_usd, fmt_usd_rate, grouped,
    local_clock_text, painted, push_grouped, push_painted, usd_rate_text, usd_text, Hms, BOLD,
    DIM, GREEN, RED, RESET,
};
use crate::history::Sample;
use crate::localtime::{answers_as, day_bounds, day_on, spans_day};
use crate::num::{
    clamp_i64, fixed_text, micros_at, minus_if, push_fixed, saturate, trunc_div, trunc_units,
    Micros, Num, UNIT,
};
use crate::series::keys_in;
use crate::spend::{
    budget_of, budget_outcome, daily_budget_from, day_rate, day_rate_of, day_spend, day_total,
    day_total_is_not_negative, outcome, today_events, BudgetOutcome, DayRate, IDLE_RATE_PER_HR,
};
use crate::statusline::{shown_rate, LocalTimes};
use crate::text::{dec, push_dec};

verus! {

/// The trailing window of the report's rates, in millionths of a minute.
pub const DEFAULT_WINDOW_MIN: i64 = 120_000_000;

/// A burn up to this, in millionths of a percent an hour, reads as idle.
pub const IDLE_PCT_PER_HR: i64 = 50_000;

/// What the coding assistant whose usage is reported goes by.
#[derive(Clone, Copy)]
pub struct Host<'a> {
    /// The family of products that share one account.
    pub name: &'a str,
    /// The program whose sessions are logged.
    pub program: &'a str,
    /// The web site that draws on the same account.
    pub site: &'a str,
}

/// What the report depends on besides the history and the clock.
pub struct ReportSetting<'a> {
    pub host: Host<'a>,
    /// The trailing window of the rates, in millionths of a minute.
    pub window_min: Micros,
    /// The daily budget, as the environment states it.
    pub budget: Option<&'a str>,
    /// Whether the environment states any budget at all.
    pub budget_set: bool,
}

/// The trailing window in microseconds.
pub open spec fn window_micros(window_min: int) -> int {
    window_min * 60
}

// ---------------------------------------------------------------------------------------
// A window
// ---------------------------------------------------------------------------------------

/// A text padded on the left to three characters.
pub open spec fn padded3(t: Seq<char>) -> Seq<char> {
    if t.len() == 0 {
        "   "@
    } else if t.len() == 1 {
        "  "@ + t
    } else if t.len() == 2 {
        " "@ + t
    } else {
        t
    }
}

fn push_padded3(s: &mut String, t: &str)
    ensures
        final(s)@ == old(s)@ + padded3(t@),
{
    let n = t.unicode_len();
    if n == 0 {
        s.append("   ");
    } else if n == 1 {
        s.append("  ");
    } else if n == 2 {
        s.append(" ");
    }
    s.append(t);
    assert(s@ =~= old(s)@ + padded3(t@));
}

/// Whether a rate counts as burn.
pub open spec fn burning(rate: Option<i64>) -> bool {
    rate matches Some(r) && r > IDLE_PCT_PER_HR
}

/// Where a window stands: full, filling, or idle.
pub open spec fn pace_text(cur: int, rate: Option<i64>) -> Seq<char> {
    if cur >= FULL_PCT {
        "  "@ + painted(RED, "AT LIMIT"@)
    } else if burning(rate) {
        "  +"@ + fixed_text(rate->0 as int, 1) + "%/hr   ETA "@ + dur_text(
            clamp_i64(cap_eta(cur, rate->0 as int).whole()),
        )
    } else {
        "  "@ + painted(DIM, "~idle (no measurable burn)"@)
    }
}

fn push_pace(s: &mut String, cur: Micros, rate: Option<Micros>)
    ensures
        final(s)@ == old(s)@ + pace_text(cur as int, rate),
{
    let ghost before = s@;
    if cur >= FULL_PCT {
        s.append("  ");
        push_painted(s, RED, "AT LIMIT");
        assert(s@ =~= before + pace_text(cur as int, rate));
        return;
    }
    if let Some(r) = rate {
        if r > IDLE_PCT_PER_HR {
            s.append("  +");
            push_fixed(s, r, 1);
            s.append("%/hr   ETA ");
            s.append(fmt_dur(eta_to_cap(cur, r).whole()).as_str());
            assert(s@ =~= before + pace_text(cur as int, rate));
            return;
        }
    }
    s.append("  ");
    push_painted(s, DIM, "~idle (no measurable burn)");
    assert(s@ =~= before + pace_text(cur as int, rate));
}

pub open spec fn at_clock(at: Option<Hms>) -> Seq<char> {
    match local_clock_text(at) {
        Some(clock) => " @ "@ + clock,
        None => Seq::empty(),
    }
}

fn push_at_clock(s: &mut String, at: Option<Hms>)
    ensures
        final(s)@ == old(s)@ + at_clock(at),
{
    if let Some(clock) = fmt_clock(at) {
        s.append(" @ ");
        s.append(clock.as_str());
    }
    assert(s@ =~= old(s)@ + at_clock(at));
}

/// Which comes first while the window is filling: the cap or the reset.
pub open spec fn race_text(cur: int, rate: Option<i64>, reset: int, now: int) -> Seq<char> {
    if burning(rate) && cur < FULL_PCT {
        "  "@ + (if cap_eta(cur, rate->0 as int).below(held_gap(reset, now)) {
            painted(RED, "→ hits cap first"@)
        } else {
            painted(GREEN, "→ resets first"@)
        })
    } else {
        Seq::empty()
    }
}

pub open spec fn resets_text(
    cur: int,
    rate: Option<i64>,
    reset: Option<i64>,
    at: Option<Hms>,
    now: int,
) -> Seq<char> {
    match reset {
        None => Seq::empty(),
        Some(r) => painted(
            DIM,
            "   resets in "@ + dur_text(whole_gap(r as int, now)) + at_clock(at),
        ) + race_text(cur, rate, r as int, now),
    }
}

fn push_resets(
    s: &mut String,
    cur: Micros,
    rate: Option<Micros>,
    reset: Option<Micros>,
    at: Option<Hms>,
    now: Micros,
)
    ensures
        final(s)@ == old(s)@ + resets_text(cur as int, rate, reset, at, now as int),
{
    let ghost before = s@;
    if let Some(r) = reset {
        let mut body = "   resets in ".to_owned();
        body.append(fmt_dur(whole_gap_of(r, now)).as_str());
        push_at_clock(&mut body, at);
        push_painted(s, DIM, body.as_str());
        if let Some(v) = rate {
            if v > IDLE_PCT_PER_HR && cur < FULL_PCT {
                s.append("  ");
                if eta_to_cap(cur, v).is_below(gap_of(r, now)) {
                    push_painted(s, RED, "→ hits cap first");
                } else {
                    push_painted(s, GREEN, "→ resets first");
                }
            }
        }
    }
    assert(s@ =~= before + resets_text(cur as int, rate, reset, at, now as int));
}

/// What is left of a window, or what it is over by, at its conversion to dollars.
pub open spec fn headroom(cur: int, usd_per_pct: Held) -> Held {
    (if cur > FULL_PCT {
        held_gap(cur, FULL_PCT as int)
    } else {
        held_gap(FULL_PCT as int, cur)
    }).times(usd_per_pct)
}

/// The headroom in dollars and what one percent is worth.
pub open spec fn dollars_text(cur: int, usd_per_pct: Held) -> Seq<char> {
    minus_if(cur > FULL_PCT) + held_text(headroom(cur, usd_per_pct).min(print_limit()), 2)
        + "   ($"@ + held_text(usd_per_pct.min(print_limit()), 3) + "/1%"@
}

/// What one percent is in tokens, where that is known.
pub open spec fn tokens_text(tok_per_pct: Option<Double>) -> Seq<char> {
    match tok_per_pct {
        Some(tok) => ", ≈"@ + grouped(tok@.min(print_limit()).shown(0)) + " raw-tok/1%"@,
        None => Seq::empty(),
    }
}

/// The headroom (cost-anchored, approximate).
pub open spec fn headroom_text(cur: int, conv: Option<Conv>) -> Seq<char> {
    match conv {
        Some(Conv { usd_per_pct: Some(u), tok_per_pct }) => "      "@ + DIM@ + "headroom ~$"@
            + dollars_text(cur, u@) + tokens_text(tok_per_pct) + ")"@ + RESET@ + "\n"@,
        _ => "      "@ + painted(
            DIM,
            "headroom: n/a — need more % movement to anchor a $/% estimate"@,
        ) + "\n"@,
    }
}

#[verifier::rlimit(40)]
fn push_dollars(s: &mut String, cur: Micros, usd_per_pct: Double)
    requires
        usd_per_pct.wf(),
        -2_000 <= usd_per_pct.exp <= 2_000,
    ensures
        final(s)@ == old(s)@ + dollars_text(cur as int, usd_per_pct@),
{
    let ghost before = s@;
    let away = if cur > FULL_PCT {
        s.push('-');
        gap_of(cur, FULL_PCT)
    } else {
        gap_of(FULL_PCT, cur)
    };
    assert(s@ =~= before + minus_if(cur > FULL_PCT));
    push_held(s, away.times(usd_per_pct).printable(), 2);
    s.append("   ($");
    push_held(s, usd_per_pct.printable(), 3);
    s.append("/1%");
    assert(s@ =~= before + dollars_text(cur as int, usd_per_pct@));
}

fn push_tokens(s: &mut String, tok_per_pct: Option<Double>)
    requires
        tok_per_pct matches Some(tok) ==> tok.wf(),
    ensures
        final(s)@ == old(s)@ + tokens_text(tok_per_pct),
{
    let ghost before = s@;
    if let Some(tok) = tok_per_pct {
        s.append(", ≈");
        push_grouped(s, tok.printable().to_places(0));
        s.append(" raw-tok/1%");
    }
    assert(s@ =~= before + tokens_text(tok_per_pct));
}

#[verifier::rlimit(40)]
fn push_headroom(s: &mut String, cur: Micros, conv: &Option<Conv>)
    requires
        conv matches Some(c) ==> c.wf(),
    ensures
        final(s)@ == old(s)@ + headroom_text(cur as int, *conv),
{
    let ghost before = s@;
    s.append("      ");
    if let Some(c) = conv {
        if let Some(u) = c.usd_per_pct {
            s.append(DIM);
            s.append("headroom ~$");
            push_dollars(s, cur, u);
            push_tokens(s, c.tok_per_pct);
            s.append(")");
            s.append(RESET);
            s.append("\n");
            assert(s@ =~= before + headroom_text(cur as int, *conv));
            return;
        }
    }
    push_painted(s, DIM, "headroom: n/a — need more % movement to anchor a $/% estimate");
    s.append("\n");
    assert(s@ =~= before + headroom_text(cur as int, *conv));
}

/// A window's label, bar and percentage.
pub open spec fn window_head(label: Seq<char>, cur: i64) -> Seq<char> {
    "  "@ + painted(BOLD, label) + "  "@ + simple_bar_text(cur as int, 14) + "  "@ + painted(
        band(Some(Num::Finite(cur))),
        padded3(fixed_text(cur as int, 0)) + "%"@,
    )
}

/// One window's section.
pub open spec fn window_section(label: Seq<char>, a: Analysis, at: Option<Hms>, now: int) -> Seq<
    char,
> {
    window_head(label, a.cur) + pace_text(a.cur as int, a.rate) + resets_text(
        a.cur as int,
        a.rate,
        a.reset,
        at,
        now,
    ) + "\n"@ + headroom_text(a.cur as int, a.conv) + "\n"@
}

#[verifier::rlimit(40)]
fn push_window_head(s: &mut String, label: &str, cur: Micros)
    ensures
        final(s)@ == old(s)@ + window_head(label@, cur),
{
    let ghost before = s@;
    s.append("  ");
    push_painted(s, BOLD, label);
    s.append("  ");
    s.append(simple_bar(cur, 14).as_str());
    s.append("  ");
    let mut digits = String::new();
    push_fixed(&mut digits, cur, 0);
    assert(digits@ =~= fixed_text(cur as int, 0));
    let mut pct = String::new();
    push_padded3(&mut pct, digits.as_str());
    pct.append("%");
    let ghost shown = padded3(fixed_text(cur as int, 0)) + "%"@;
    assert(pct@ =~= shown);
    push_painted(s, color_for(Some(Num::Finite(cur))), pct.as_str());
    assert(s@ =~= before + window_head(label@, cur));
}

#[verifier::rlimit(40)]
fn push_window(s: &mut String, label: &str, a: &Analysis, at: Option<Hms>, now: Micros)
    requires
        a.wf(),
    ensures
        final(s)@ == old(s)@ + window_section(label@, *a, at, now as int),
{
    let ghost before = s@;
    push_window_head(s, label, a.cur);
    push_pace(s, a.cur, a.rate);
    push_resets(s, a.cur, a.rate, a.reset, at, now);
    s.append("\n");
    push_headroom(s, a.cur, &a.conv);
    s.append("\n");
    assert(s@ =~= before + window_section(label@, *a, at, now as int));
}

// ---------------------------------------------------------------------------------------
// The day
// ---------------------------------------------------------------------------------------

pub open spec fn sessions_text(n: nat) -> Seq<char> {
    if n == 1 {
        "1 session"@
    } else {
        dec(n) + " sessions"@
    }
}

pub open spec fn day_pace(rate: Option<DayRate>) -> Seq<char> {
    match rate {
        Some(r) if r.per_hr > IDLE_RATE_PER_HR => "   +"@ + usd_rate_text(r.per_hr as int) + "/hr"@,
        _ => "   "@ + painted(DIM, "~idle (no measurable burn)"@),
    }
}

pub open spec fn rollover_text(next_midnight: int, at: Option<Hms>, now: int) -> Seq<char> {
    painted(
        DIM,
        "   rolls over in "@ + dur_text(
            clamp_i64(trunc_div(next_midnight * UNIT - now, UNIT as int)),
        ) + at_clock(at),
    )
}

pub open spec fn verdict_text(o: BudgetOutcome) -> Seq<char> {
    match o {
        BudgetOutcome::Over => " "@ + painted(RED, "— over budget"@),
        BudgetOutcome::HitsBudget { eta_secs } => painted(
            DIM,
            ", ETA "@ + dur_text(eta_secs as int),
        ) + " "@ + painted(RED, "→ hits budget before midnight"@),
        BudgetOutcome::RollsOverFirst => " "@ + painted(GREEN, "→ rolls over first"@),
    }
}

/// How spend stands against the budget, or that the budget was not understood.
pub open spec fn budget_text(
    total: int,
    setting: ReportSetting,
    rate: Option<DayRate>,
    next_midnight: int,
    now: int,
) -> Seq<char> {
    let budget = match setting.budget {
        Some(v) => budget_of(v@),
        None => None,
    };
    match budget {
        Some(b) => {
            let pct = held_pct(total as nat, b as nat);
            "      "@ + DIM@ + "budget "@ + usd_text(b as int) + "/day — "@ + painted(
                band(Some(Num::Finite(clamp_i64(pct.cut()) as i64))),
                held_text(pct, 0) + "%"@,
            ) + painted(DIM, " used"@) + verdict_text(
                outcome(total, b as int, rate, next_midnight, now),
            ) + "\n"@
        },
        None => if setting.budget_set {
            "      "@ + painted(
                DIM,
                "QUOTALINE_DAILY_BUDGET is set but not a positive number (use e.g. 50, not $50) — ignored."@,
            ) + "\n"@
        } else {
            Seq::empty()
        },
    }
}

fn push_verdict(s: &mut String, o: BudgetOutcome)
    ensures
        final(s)@ == old(s)@ + verdict_text(o),
{
    let ghost before = s@;
    match o {
        BudgetOutcome::Over => {
            s.append(" ");
            push_painted(s, RED, "— over budget");
        },
        BudgetOutcome::HitsBudget { eta_secs } => {
            let mut eta = ", ETA ".to_owned();
            eta.append(fmt_dur(eta_secs).as_str());
            push_painted(s, DIM, eta.as_str());
            s.append(" ");
            push_painted(s, RED, "→ hits budget before midnight");
        },
        BudgetOutcome::RollsOverFirst => {
            s.append(" ");
            push_painted(s, GREEN, "→ rolls over first");
        },
    }
    assert(s@ =~= before + verdict_text(o));
}

fn budget_line(
    total: Micros,
    setting: &ReportSetting,
    rate: Option<DayRate>,
    next_midnight: i64,
    now: Micros,
) -> (s: String)
    requires
        total >= 0,
    ensures
        s@ == budget_text(total as int, *setting, rate, next_midnight as int, now as int),
{
    let budget: Option<Micros> = match setting.budget {
        Some(v) => daily_budget_from(v),
        None => None,
    };
    match budget {
        Some(b) => {
            let pct = pct_of(total, b);
            let mut used = String::new();
            push_held(&mut used, pct, 0);
            used.append("%");
            assert(used@ =~= held_text(pct@, 0) + "%"@);
            let mut s = "      ".to_owned();
            s.append(DIM);
            s.append("budget ");
            s.append(fmt_usd(b).as_str());
            s.append("/day — ");
            push_painted(&mut s, color_for(Some(Num::Finite(pct.cut()))), used.as_str());
            push_painted(&mut s, DIM, " used");
            push_verdict(&mut s, budget_outcome(total, b, rate, next_midnight, now));
            s.append("\n");
            s
        },
        None => {
            if !setting.budget_set {
                return String::new();
            }
            let mut s = "      ".to_owned();
            push_painted(
                &mut s,
                DIM,
                "QUOTALINE_DAILY_BUDGET is set but not a positive number (use e.g. 50, not $50) — ignored.",
            );
            s.append("\n");
            s
        },
    }
}

/// The lines of the day section.
pub open spec fn day_lines(
    total: int,
    sessions: nat,
    rate: Option<DayRate>,
    setting: ReportSetting,
    now: int,
    times: LocalTimes,
) -> Seq<char> {
    "  "@ + painted(BOLD, "day"@) + "  "@ + painted(BOLD, usd_text(total)) + " today "@ + painted(
        DIM,
        "("@ + sessions_text(sessions) + ")"@,
    ) + day_pace(rate) + rollover_text(times.next_midnight as int, times.rollover, now) + "\n"@
        + budget_text(total, setting, rate, times.next_midnight as int, now) + "\n"@
}

fn push_day_pace(s: &mut String, rate: Option<DayRate>)
    ensures
        final(s)@ == old(s)@ + day_pace(rate),
{
    let ghost before = s@;
    if let Some(r) = rate {
        if r.per_hr > IDLE_RATE_PER_HR {
            s.append("   +");
            s.append(fmt_usd_rate(r.per_hr).as_str());
            s.append("/hr");
            assert(s@ =~= before + day_pace(rate));
            return;
        }
    }
    s.append("   ");
    push_painted(s, DIM, "~idle (no measurable burn)");
    assert(s@ =~= before + day_pace(rate));
}

fn push_rollover(s: &mut String, next_midnight: i64, at: Option<Hms>, now: Micros)
    ensures
        final(s)@ == old(s)@ + rollover_text(next_midnight as int, at, now as int),
{
    let mut body = "   rolls over in ".to_owned();
    let left: i128 = trunc_units(micros_at(next_midnight) - now as i128);
    body.append(fmt_dur(saturate(left)).as_str());
    push_at_clock(&mut body, at);
    push_painted(s, DIM, body.as_str());
}

fn day_report(
    total: Micros,
    sessions: usize,
    rate: Option<DayRate>,
    setting: &ReportSetting,
    now: Micros,
    times: &LocalTimes,
) -> (s: String)
    requires
        total >= 0,
    ensures
        s@ == day_lines(total as int, sessions as nat, rate, *setting, now as int, *times),
{
    let mut count = "(".to_owned();
    if sessions == 1 {
        count.append("1 session");
    } else {
        push_dec(&mut count, sessions as u128);
        count.append(" sessions");
    }
    count.append(")");
    assert(count@ =~= "("@ + sessions_text(sessions as nat) + ")"@);
    let mut s = "  ".to_owned();
    push_painted(&mut s, BOLD, "day");
    s.append("  ");
    push_painted(&mut s, BOLD, fmt_usd(total).as_str());
    s.append(" today ");
    push_painted(&mut s, DIM, count.as_str());
    push_day_pace(&mut s, rate);
    push_rollover(&mut s, times.next_midnight, times.rollover, now);
    s.append("\n");
    s.append(budget_line(total, setting, rate, times.next_midnight, now).as_str());
    s.append("\n");
    s
}

/// The API-key day section: empty where no spend was attributed to today.
pub open spec fn day_section(
    hist: Seq<Sample>,
    setting: ReportSetting,
    now: i64,
    times: LocalTimes,
) -> Seq<char> {
    let midnight = times.midnight as int;
    let sessions = keys_in(today_events(hist, midnight, None, now as int)).len();
    if sessions == 0 {
        Seq::empty()
    } else {
        day_lines(
            clamp_i64(day_total(hist, midnight, None, now as int)),
            sessions,
            shown_rate(day_rate_of(hist, None, window_micros(setting.window_min as int), now)),
            setting,
            now as int,
            times,
        )
    }
}

/// The API-key day section: $ spent today across sessions, the recent $/hr rate, and — when
/// a daily budget is set — how spend stands against the budget. Empty unless API-key spend
/// was attributed to today, which is the other result.
///
/// The status line has no error channel, but the report does: it says when a set budget was
/// rejected (e.g. `$50` instead of `50`) instead of silently hiding it.
pub fn api_section(hist: &[Sample], setting: &ReportSetting, now: Micros, times: &LocalTimes) -> (r: (
    String,
    bool,
))
    ensures
        r.0@ == day_section(hist@, *setting, now, *times),
        r.1 == (keys_in(today_events(hist@, times.midnight as int, None, now as int)).len() > 0),
{
    let day = day_spend(hist, times.midnight, None, now);
    if day.sessions == 0 {
        return (String::new(), false);
    }
    proof {
        day_total_is_not_negative(hist@, times.midnight as int, None, now as int);
    }
    let rate = day_rate(hist, None, setting.window_min as i128 * 60, now);
    assert(rate == shown_rate(
        day_rate_of(hist@, None, window_micros(setting.window_min as int), now),
    ));
    (day_report(day.total, day.sessions, rate, setting, now, times), true)
}

// ---------------------------------------------------------------------------------------
// The whole
// ---------------------------------------------------------------------------------------

/// A window's analysis, where the history holds one that is current.
pub open spec fn is_current(hist: Seq<Sample>, win: Win, now: int) -> bool {
    last_report(hist, win) matches Some(i) && !has_reset(hist[i], win, now)
}

/// Whether `text` is the section of one window: empty where the history holds no current
/// report of it.
pub open spec fn is_section(
    text: Seq<char>,
    hist: Seq<Sample>,
    label: Seq<char>,
    win: Win,
    window: int,
    at: Option<Hms>,
    now: int,
) -> bool {
    if is_current(hist, win, now) {
        exists|a: Analysis|
            analysis_at(a, hist, win, last_report(hist, win)->0, window, now) && text
                == #[trigger] window_section(label, a, at, now)
    } else {
        text == Seq::<char>::empty()
    }
}

pub open spec fn too_few_text(n: nat) -> Seq<char> {
    "Not enough samples yet ("@ + dec(n)
        + "). The status line logs ~1/min while sessions are active — check back in a few minutes.\n"@
}

pub open spec fn title_text(host: Host, n: nat, span: int) -> Seq<char> {
    painted(BOLD, host.name@ + " usage — burn rate"@) + painted(
        DIM,
        "  ("@ + dec(n) + " samples over "@ + dur_text(span) + ")"@,
    ) + "\n\n"@
}

pub open spec fn note(body: Seq<char>) -> Seq<char> {
    painted(DIM, body) + "\n"@
}

pub open spec fn site_note(host: Host) -> Seq<char> {
    "  usage is mostly these sessions; "@ + host.site@ + " etc. moves % but isn't logged."@
}

pub open spec fn program_note(host: Host) -> Seq<char> {
    "  day $ covers this machine's "@ + host.program@ + " API-key sessions only, from logged"@
}

pub open spec fn notes_text(host: Host, sub_shown: bool, api_shown: bool) -> Seq<char> {
    (if sub_shown {
        note("  % and ETA are exact (account-wide). $/token are estimates — they assume your"@)
            + note(site_note(host))
            + note("  raw-tok counts include cache re-reads, so the $ figure is the steadier one."@)
    } else {
        Seq::empty()
    }) + (if api_shown {
        note(program_note(host))
            + note("  samples — the status line's live figure can run up to a minute ahead."@)
    } else {
        Seq::empty()
    }) + (if !sub_shown && !api_shown {
        note("  The samples carry no usable window percentages or API-key spend yet —"@)
            + note("  nothing to analyse. Leave a session running and check back."@)
    } else {
        Seq::empty()
    })
}

fn push_note(s: &mut String, body: &str)
    ensures
        final(s)@ == old(s)@ + note(body@),
{
    push_painted(s, DIM, body);
    s.append("\n");
    assert(s@ =~= old(s)@ + note(body@));
}

fn push_notes(s: &mut String, host: Host, sub_shown: bool, api_shown: bool)
    ensures
        final(s)@ == old(s)@ + notes_text(host, sub_shown, api_shown),
{
    let ghost before = s@;
    if sub_shown {
        push_note(
            s,
            "  % and ETA are exact (account-wide). $/token are estimates — they assume your",
        );
        let mut line = "  usage is mostly these sessions; ".to_owned();
        line.append(host.site);
        line.append(" etc. moves % but isn't logged.");
        push_note(s, line.as_str());
        push_note(
            s,
            "  raw-tok counts include cache re-reads, so the $ figure is the steadier one.",
        );
    }
    if api_shown {
        let mut line = "  day $ covers this machine's ".to_owned();
        line.append(host.program);
        line.append(" API-key sessions only, from logged");
        push_note(s, line.as_str());
        push_note(s, "  samples — the status line's live figure can run up to a minute ahead.");
    }
    if !sub_shown && !api_shown {
        push_note(s, "  The samples carry no usable window percentages or API-key spend yet —");
        push_note(s, "  nothing to analyse. Leave a session running and check back.");
    }
    assert(s@ =~= before + notes_text(host, sub_shown, api_shown));
}

fn push_section(
    s: &mut String,
    hist: &[Sample],
    label: &str,
    win: Win,
    window: i128,
    at: Option<Hms>,
    now: Micros,
) -> (shown: bool)
    ensures
        shown == is_current(hist@, win, now as int),
        exists|text: Seq<char>|
            #[trigger] is_section(text, hist@, label@, win, window as int, at, now as int)
                && final(s)@ == old(s)@ + text,
{
    let ghost before = s@;
    match analyze(hist, win, window, now) {
        None => {
            proof {
                let text = Seq::<char>::empty();
                assert(is_section(text, hist@, label@, win, window as int, at, now as int));
                assert(s@ =~= before + text);
            }
            false
        },
        Some(a) => {
            push_window(s, label, &a, at, now);
            proof {
                let text = window_section(label@, a, at, now as int);
                assert(is_section(text, hist@, label@, win, window as int, at, now as int));
            }
            true
        },
    }
}

/// Whether `text` is the report on a history.
pub open spec fn is_report(
    text: Seq<char>,
    hist: Seq<Sample>,
    setting: ReportSetting,
    now: i64,
    times: LocalTimes,
) -> bool {
    let window = window_micros(setting.window_min as int);
    let span = clamp_i64(hist.last().t - hist[0].t);
    if hist.len() < 2 {
        text == too_few_text(hist.len())
    } else {
        exists|five: Seq<char>, week: Seq<char>|
            #![trigger is_section(five, hist, "5h"@, Win::FiveHour, window, times.five_hour, now as int),
                is_section(week, hist, "wk"@, Win::SevenDay, window, times.seven_day, now as int)]
            {
                &&& is_section(
                    five,
                    hist,
                    "5h"@,
                    Win::FiveHour,
                    window,
                    times.five_hour,
                    now as int,
                )
                &&& is_section(
                    week,
                    hist,
                    "wk"@,
                    Win::SevenDay,
                    window,
                    times.seven_day,
                    now as int,
                )
                &&& text == title_text(setting.host, hist.len(), span) + five + week + day_section(
                    hist,
                    setting,
                    now,
                    times,
                ) + notes_text(
                    setting.host,
                    is_current(hist, Win::FiveHour, now as int) || is_current(
                        hist,
                        Win::SevenDay,
                        now as int,
                    ),
                    keys_in(today_events(hist, times.midnight as int, None, now as int)).len() > 0,
                )
            }
    }
}

/// The whole report.
pub fn run(hist: &[Sample], setting: &ReportSetting, now: Micros, times: &LocalTimes) -> (s: String)
    ensures
        is_report(s@, hist@, *setting, now, *times),
{
    let mut s = String::new();
    if hist.len() < 2 {
        s.append("Not enough samples yet (");
        push_dec(&mut s, hist.len() as u128);
        s.append(
            "). The status line logs ~1/min while sessions are active — check back in a few minutes.\n",
        );
        assert(s@ =~= too_few_text(hist@.len()));
        return s;
    }
    let span: i64 = saturate(hist[hist.len() - 1].t as i128 - hist[0].t as i128);
    let mut title = setting.host.name.to_owned();
    title.append(" usage — burn rate");
    push_painted(&mut s, BOLD, title.as_str());
    let mut scope = "  (".to_owned();
    push_dec(&mut scope, hist.len() as u128);
    scope.append(" samples over ");
    scope.append(fmt_dur(span).as_str());
    scope.append(")");
    assert(scope@ =~= "  ("@ + dec(hist@.len()) + " samples over "@ + dur_text(span as int)
        + ")"@);
    push_painted(&mut s, DIM, scope.as_str());
    s.append("\n\n");
    let ghost head = s@;
    assert(head =~= title_text(setting.host, hist@.len(), span as int));
    let window: i128 = setting.window_min as i128 * 60;
    let five_shown = push_section(&mut s, hist, "5h", Win::FiveHour, window, times.five_hour, now);
    let ghost after_five = s@;
    let week_shown = push_section(&mut s, hist, "wk", Win::SevenDay, window, times.seven_day, now);
    let ghost after_week = s@;
    let (day, api_shown) = api_section(hist, setting, now, times);
    s.append(day.as_str());
    push_notes(&mut s, setting.host, five_shown || week_shown, api_shown);
    proof {
        let five = choose|text: Seq<char>|
            #[trigger] is_section(
                text,
                hist@,
                "5h"@,
                Win::FiveHour,
                window as int,
                times.five_hour,
                now as int,
            ) && after_five == head + text;
        let week = choose|text: Seq<char>|
            #[trigger] is_section(
                text,
                hist@,
                "wk"@,
                Win::SevenDay,
                window as int,
                times.seven_day,
                now as int,
            ) && after_week == after_five + text;
        assert(is_section(
            five,
            hist@,
            "5h"@,
            Win::FiveHour,
            window as int,
            times.five_hour,
            now as int,
        ));
        assert(is_section(
            week,
            hist@,
            "wk"@,
            Win::SevenDay,
            window as int,
            times.seven_day,
            now as int,
        ));
    }
    s
}

/// When a window's current report says it resets.
pub open spec fn reported_reset(hist: Seq<Sample>, win: Win, now: int) -> Option<i64> {
    if is_current(hist, win, now) {
        win.reset_in(hist[last_report(hist, win)->0])
    } else {
        None
    }
}

/// The local times that the report shows, on the clock `c`.
pub open spec fn report_times_on(hist: Seq<Sample>, now: int, c: spec_fn(i64) -> Option<Hms>) -> LocalTimes {
    let (midnight, next_midnight) = day_on(now, c);
    LocalTimes {
        five_hour: match reported_reset(hist, Win::FiveHour, now) {
            Some(r) => c(trunc_div(r as int, UNIT as int) as i64),
            None => None,
        },
        seven_day: match reported_reset(hist, Win::SevenDay, now) {
            Some(r) => c(trunc_div(r as int, UNIT as int) as i64),
            None => None,
        },
        midnight,
        next_midnight,
        rollover: c(next_midnight),
    }
}

/// Whether `a` is an answer of `clock` at a window's reset.
pub open spec fn reset_answered<F: Fn(i64) -> Option<Hms>>(
    clock: F,
    hist: Seq<Sample>,
    win: Win,
    now: int,
    a: Option<Hms>,
) -> bool {
    match reported_reset(hist, win, now) {
        Some(e) => call_ensures(clock, (trunc_div(e as int, UNIT as int) as i64,), a),
        None => a is None,
    }
}

/// Whether each of `r` is an answer of `clock` to the moment that the report shows.
pub open spec fn reports_times<F: Fn(i64) -> Option<Hms>>(
    clock: F,
    hist: Seq<Sample>,
    now: int,
    r: LocalTimes,
) -> bool {
    &&& reset_answered(clock, hist, Win::FiveHour, now, r.five_hour)
    &&& reset_answered(clock, hist, Win::SevenDay, now, r.seven_day)
    &&& spans_day(clock, now, (r.midnight, r.next_midnight))
    &&& call_ensures(clock, (r.next_midnight,), r.rollover)
}

fn window_clock<F: Fn(i64) -> Option<Hms>>(clock: &F, hist: &[Sample], win: Win, now: Micros) -> (r:
    Option<Hms>)
    requires
        forall|t: i64| call_requires(*clock, (t,)),
    ensures
        forall|c: spec_fn(i64) -> Option<Hms>| #[trigger]
            answers_as(*clock, c) ==> r == match reported_reset(hist@, win, now as int) {
                Some(e) => c(trunc_div(e as int, UNIT as int) as i64),
                None => None,
            },
        reset_answered(*clock, hist@, win, now as int, r),
{
    match analyze(hist, win, 0, now) {
        Some(a) => match a.reset {
            Some(e) => clock(trunc_units(e as i128) as i64),
            None => None,
        },
        None => None,
    }
}

/// Looks up the local times that the report shows.
pub fn report_times<F: Fn(i64) -> Option<Hms>>(clock: &F, hist: &[Sample], now: Micros) -> (r:
    LocalTimes)
    requires
        forall|t: i64| call_requires(*clock, (t,)),
    ensures
        forall|c: spec_fn(i64) -> Option<Hms>|
            answers_as(*clock, c) ==> r == #[trigger] report_times_on(hist@, now as int, c),
        reports_times(*clock, hist@, now as int, r),
{
    let five_hour = window_clock(clock, hist, Win::FiveHour, now);
    let seven_day = window_clock(clock, hist, Win::SevenDay, now);
    let (midnight, next_midnight) = day_bounds(clock, now);
    let rollover = clock(next_midnight);
    assert forall|c: spec_fn(i64) -> Option<Hms>| answers_as(*clock, c) implies (LocalTimes {
        five_hour,
        seven_day,
        midnight,
        next_midnight,
        rollover,
    }) == #[trigger] report_times_on(hist@, now as int, c) by {
        assert((midnight, next_midnight) == day_on(now as int, c));
    }
    LocalTimes { five_hour, seven_day, midnight, next_midnight, rollover }
}

} // verus!
