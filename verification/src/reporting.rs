//! Laws of the report: which sample speaks for a window, what is shown of it, what one percent of
//! it is worth, and that the report and the status line agree.

use vstd::prelude::*;

use crate::bars::simple_bar_text;
use crate::burn::{
    analysis_at, cap_eta, cap_warning, conv_view, last_report, lemma_last_report,
    num_of, or_zero, same_reset, segment_of, session_delta, slope, Analysis, Counter, Win,
};
use crate::double::{held_gap, held_micros, held_pct, held_text, held_whole, whole_gap};
use crate::fmt::{dur_text, painted, usd_text, Hms, BOLD, DIM, GREEN, RED, RESET};
use crate::history::Sample;
use crate::num::{clamp_i64, fixed_text, Num};
use crate::rates::{
    reports, reading_of, stated_pct, states_reset, the_report_looks_back_as_far_as_asked,
};
use crate::report::{
    at_clock, budget_text, day_lines, day_pace, day_section, headroom_text, is_current, is_report,
    is_section, notes_text, pace_text, padded3, race_text, resets_text, rollover_text,
    sessions_text, title_text, verdict_text, window_head, window_micros, window_section, Host,
    ReportSetting,
};
use crate::screen::{a_percentage_has_one_colour, fill_color, holds, lemma_holds, lemma_holds_through, reset_clock};
use crate::series::{keys_in, Point};
use crate::spend::{
    budget_of, budget_warning, day_rate_of, day_total, outcome, today_events, BudgetOutcome, DayRate,
};
use crate::statusline::{shown_rate, LocalTimes};
use crate::text::dec;

verus! {

// ---------------------------------------------------------------------------------------
// The windows
// ---------------------------------------------------------------------------------------

/// Whether the sample at `i` is the last to state a window's percentage.
pub open spec fn speaks_for(hist: Seq<Sample>, win: Win, i: int) -> bool {
    &&& 0 <= i < hist.len()
    &&& stated_pct(win, hist[i]) is Some
    &&& forall|j: int| i < j < hist.len() ==> stated_pct(win, #[trigger] hist[j]) is None
}

/// The reset that a sample states for a window.
pub open spec fn stated_reset(win: Win, s: Sample) -> Option<i64> {
    match win {
        Win::FiveHour => s.h5r,
        Win::SevenDay => s.d7r,
    }
}

/// The label of a window.
pub open spec fn label_of(win: Win) -> Seq<char> {
    match win {
        Win::FiveHour => "5h"@,
        Win::SevenDay => "wk"@,
    }
}

proof fn lemma_speaks(hist: Seq<Sample>, win: Win, i: int)
    requires
        speaks_for(hist, win, i),
    ensures
        last_report(hist, win) == Some(i),
{
    lemma_last_report(hist, win);
    let at = last_report(hist, win);
    assert(win.pct_in(hist[i]) is Some);
    if at is Some && at->0 != i {
        assert(stated_pct(win, hist[at->0]) == win.pct_in(hist[at->0]));
        assert(stated_pct(win, hist[i]) == win.pct_in(hist[i]));
    }
}

/// What the report shows of a window first: its label, its bar and its percentage, in the colour of
/// how full it is.
pub open spec fn reported_head(win: Win, cur: i64) -> Seq<char> {
    painted(BOLD, label_of(win)) + "  "@ + simple_bar_text(cur as int, 14) + "  "@ + painted(
        fill_color(Num::Finite(cur)),
        padded3(fixed_text(cur as int, 0)) + "%"@,
    )
}

proof fn lemma_section_holds(win: Win, a: Analysis, at: Option<Hms>, now: int)
    ensures
        holds(window_section(label_of(win), a, at, now), reported_head(win, a.cur)),
        holds(window_section(label_of(win), a, at, now), pace_text(a.cur as int, a.rate)),
{
    let none = Seq::<char>::empty();
    let head = reported_head(win, a.cur);
    let pace = pace_text(a.cur as int, a.rate);
    let text = window_section(label_of(win), a, at, now);
    assert(window_head(label_of(win), a.cur) =~= "  "@ + head);
    let rest = resets_text(a.cur as int, a.rate, a.reset, at, now) + "\n"@
        + headroom_text(a.cur as int, a.conv) + "\n"@;
    assert(text =~= "  "@ + head + (pace + rest));
    lemma_holds("  "@, head, pace + rest);
    assert(text =~= "  "@ + head + pace + rest);
    lemma_holds("  "@ + head, pace, rest);
}

proof fn lemma_five_pieces(
    a: Seq<char>,
    b: Seq<char>,
    c: Seq<char>,
    d: Seq<char>,
    e: Seq<char>,
)
    ensures
        holds(a + b + c + d + e, b),
        holds(a + b + c + d + e, c),
        holds(a + b + c + d + e, d),
{
    assert(a + b + c + d + e =~= a + b + (c + d + e));
    lemma_holds(a, b, c + d + e);
    assert(a + b + c + d + e =~= a + b + c + (d + e));
    lemma_holds(a + b, c, d + e);
    lemma_holds(a + b + c, d, e);
}

/// What stands after two spaces, in four pieces with more behind them.
proof fn lemma_led_pieces(
    lead: Seq<char>,
    a: Seq<char>,
    b: Seq<char>,
    c: Seq<char>,
    d: Seq<char>,
    more: Seq<char>,
)
    ensures
        holds(lead + a + b + c + d + more, a + b + c + d),
{
    let part = a + b + c + d;
    assert(lead + a + b + c + d + more =~= lead + part + more);
    lemma_holds(lead, part, more);
}

proof fn lemma_day_holds(
    total: int,
    n: nat,
    rate: Option<DayRate>,
    setting: ReportSetting,
    now: int,
    times: LocalTimes,
)
    ensures
        holds(
            day_lines(total, n, rate, setting, now, times),
            painted(BOLD, "day"@) + "  "@ + painted(BOLD, usd_text(total)) + " today "@,
        ),
{
    let (a, c) = (painted(BOLD, "day"@), painted(BOLD, usd_text(total)));
    let count = painted(DIM, "("@ + sessions_text(n) + ")"@);
    let pace = day_pace(rate);
    let rollover = rollover_text(times.next_midnight as int, times.rollover, now);
    let budget = budget_text(total, setting, rate, times.next_midnight as int, now);
    let day = day_lines(total, n, rate, setting, now, times);
    lemma_regroup("  "@ + a + "  "@ + c + " today "@, count, pace, rollover, "\n"@, budget);
    lemma_led_pieces(
        "  "@,
        a,
        "  "@,
        c,
        " today "@,
        count + pace + rollover + "\n"@ + budget + "\n"@,
    );
}

proof fn lemma_regroup(
    a: Seq<char>,
    b: Seq<char>,
    c: Seq<char>,
    d: Seq<char>,
    e: Seq<char>,
    f: Seq<char>,
)
    ensures
        a + b + c + d + e + f + e == a + (b + c + d + e + f + e),
{
    assert(a + b + c + d + e + f + e =~= a + (b + c + d + e + f + e));
}

proof fn lemma_report_holds(
    text: Seq<char>,
    hist: Seq<Sample>,
    setting: ReportSetting,
    now: i64,
    times: LocalTimes,
    win: Win,
) -> (section: Seq<char>)
    requires
        is_report(text, hist, setting, now, times),
        hist.len() >= 2,
    ensures
        is_section(
            section,
            hist,
            label_of(win),
            win,
            setting.window_min * 60,
            reset_clock(times, win),
            now as int,
        ),
        holds(text, section),
        holds(text, day_section(hist, setting, now, times)),
{
    let window = setting.window_min * 60;
    let none = Seq::<char>::empty();
    let (five, week) = choose|five: Seq<char>, week: Seq<char>|
        #![trigger is_section(five, hist, "5h"@, Win::FiveHour, window, times.five_hour, now as int),
            is_section(week, hist, "wk"@, Win::SevenDay, window, times.seven_day, now as int)]
        {
            &&& is_section(five, hist, "5h"@, Win::FiveHour, window, times.five_hour, now as int)
            &&& is_section(week, hist, "wk"@, Win::SevenDay, window, times.seven_day, now as int)
            &&& text == title_text(
                setting.host,
                hist.len(),
                clamp_i64(hist.last().t - hist[0].t),
            ) + five + week + day_section(hist, setting, now, times) + notes_text(
                setting.host,
                is_current(hist, Win::FiveHour, now as int) || is_current(
                    hist,
                    Win::SevenDay,
                    now as int,
                ),
                keys_in(today_events(hist, times.midnight as int, None, now as int)).len() > 0,
            )
        };
    let title = title_text(setting.host, hist.len(), clamp_i64(hist.last().t - hist[0].t));
    let day = day_section(hist, setting, now, times);
    let notes = notes_text(
        setting.host,
        is_current(hist, Win::FiveHour, now as int) || is_current(hist, Win::SevenDay, now as int),
        keys_in(today_events(hist, times.midnight as int, None, now as int)).len() > 0,
    );
    lemma_five_pieces(title, five, week, day, notes);
    if win == Win::FiveHour {
        five
    } else {
        week
    }
}

/// The burn of a window, and when it is full at that burn.
pub open spec fn burning_text(cur: int, rate: int) -> Seq<char> {
    "+"@ + fixed_text(rate, 1) + "%/hr   ETA "@ + dur_text(clamp_i64(cap_eta(cur, rate).whole()))
}

proof fn lemma_pace_holds(cur: int, rate: Option<i64>)
    ensures
        cur >= 100_000_000 ==> holds(pace_text(cur, rate), painted(RED, "AT LIMIT"@)),
        cur < 100_000_000 && rate is Some && rate->0 > 50_000 ==> holds(
            pace_text(cur, rate),
            burning_text(cur, rate->0 as int),
        ),
        cur < 100_000_000 && (rate is None || rate->0 <= 50_000) ==> holds(
            pace_text(cur, rate),
            painted(DIM, "~idle (no measurable burn)"@),
        ),
{
    let none = Seq::<char>::empty();
    if cur >= 100_000_000 {
        lemma_holds("  "@, painted(RED, "AT LIMIT"@), none);
    } else if rate is Some && rate->0 > 50_000 {
        reveal_strlit("  +");
        reveal_strlit("  ");
        reveal_strlit("+");
        assert("  +"@ =~= "  "@ + "+"@);
        let body = burning_text(cur, rate->0 as int);
        assert(pace_text(cur, rate) =~= "  "@ + body);
        lemma_holds("  "@, body, none);
    } else {
        lemma_holds("  "@, painted(DIM, "~idle (no measurable burn)"@), none);
    }
}

/// The report shows a window as the last sample that states its percentage has it, as long as the
/// window has not reset since: under its own label, with the percentage in the colour of how full it
/// is. A full window is at its limit. Another shows the slope of the samples no older than the window
/// of time asked for, if it burns more than a twentieth of a percent an hour, and reads as idle if not.
pub proof fn a_current_window_is_reported(
    text: Seq<char>,
    hist: Seq<Sample>,
    setting: ReportSetting,
    now: i64,
    times: LocalTimes,
    win: Win,
    i: int,
)
    requires
        is_report(text, hist, setting, now, times),
        hist.len() >= 2,
        speaks_for(hist, win, i),
        stated_reset(win, hist[i]) matches Some(r) ==> r > now,
    ensures
        ({
            let cur = stated_pct(win, hist[i])->0;
            let recent = hist.filter(
                reports(win, num_of(stated_reset(win, hist[i])), setting.window_min * 60, now as int),
            );
            let rate = slope(recent.map_values(reading_of(win)));
            &&& holds(text, reported_head(win, cur))
            &&& cur >= 100_000_000 ==> holds(text, painted(RED, "AT LIMIT"@))
            &&& cur < 100_000_000 && recent.len() >= 2 && rate is Some && rate->0 > 50_000 ==> holds(
                text,
                burning_text(cur as int, rate->0),
            )
            &&& cur < 100_000_000 && recent.len() >= 2 && (rate is Some ==> rate->0 <= 50_000)
                ==> holds(text, painted(DIM, "~idle (no measurable burn)"@))
        }),
{
    let window = setting.window_min * 60;
    lemma_speaks(hist, win, i);
    assert(stated_reset(win, hist[i]) == win.reset_in(hist[i]));
    assert(stated_pct(win, hist[i]) == win.pct_in(hist[i]));
    let at = reset_clock(times, win);
    let section = lemma_report_holds(text, hist, setting, now, times, win);
    assert(is_current(hist, win, now as int));
    let a = choose|a: Analysis|
        analysis_at(a, hist, win, last_report(hist, win)->0, window, now as int) && section
            == #[trigger] window_section(label_of(win), a, at, now as int);
    let cur = stated_pct(win, hist[i])->0;
    let recent = hist.filter(
        reports(win, num_of(stated_reset(win, hist[i])), window, now as int),
    );
    if recent.len() >= 2 {
        the_report_looks_back_as_far_as_asked(a, hist, win, i, window, now as int);
    }
    lemma_section_holds(win, a, at, now as int);
    lemma_holds_through(text, section, reported_head(win, cur));
    let pace = pace_text(cur as int, a.rate);
    lemma_holds_through(text, section, pace);
    lemma_pace_holds(cur as int, a.rate);
    if cur >= 100_000_000 {
        lemma_holds_through(text, pace, painted(RED, "AT LIMIT"@));
    } else if a.rate is Some && a.rate->0 > 50_000 {
        lemma_holds_through(text, pace, burning_text(cur as int, a.rate->0 as int));
    } else {
        lemma_holds_through(text, pace, painted(DIM, "~idle (no measurable burn)"@));
    }
}

/// A current window that states its reset shows how long it is until then, and where it fills at a
/// rate that is known, whether the cap or the reset comes first. Its headroom goes by the analysis of
/// the history.
pub proof fn a_current_window_shows_its_reset(
    text: Seq<char>,
    hist: Seq<Sample>,
    setting: ReportSetting,
    now: i64,
    times: LocalTimes,
    win: Win,
    i: int,
)
    requires
        is_report(text, hist, setting, now, times),
        hist.len() >= 2,
        speaks_for(hist, win, i),
        stated_reset(win, hist[i]) matches Some(r) ==> r > now,
    ensures
        exists|a: Analysis| #[trigger]
            analysis_at(a, hist, win, i, setting.window_min * 60, now as int) && holds(
                text,
                headroom_text(stated_pct(win, hist[i])->0 as int, a.conv),
            ) && (stated_reset(win, hist[i]) matches Some(r) ==> holds(
                text,
                "resets in "@ + dur_text(whole_gap(r as int, now as int)),
            ) && holds(
                text,
                race_text(stated_pct(win, hist[i])->0 as int, a.rate, r as int, now as int),
            )),
{
    let window = setting.window_min * 60;
    lemma_speaks(hist, win, i);
    assert(stated_reset(win, hist[i]) == win.reset_in(hist[i]));
    assert(stated_pct(win, hist[i]) == win.pct_in(hist[i]));
    let at = reset_clock(times, win);
    let section = lemma_report_holds(text, hist, setting, now, times, win);
    assert(is_current(hist, win, now as int));
    let a = choose|a: Analysis|
        analysis_at(a, hist, win, last_report(hist, win)->0, window, now as int) && section
            == #[trigger] window_section(label_of(win), a, at, now as int);
    let cur = stated_pct(win, hist[i])->0 as int;
    let resets = resets_text(cur, a.rate, a.reset, at, now as int);
    let head = headroom_text(cur, a.conv);
    lemma_section_tail(label_of(win), a, at, now as int);
    lemma_holds_through(text, section, head);
    lemma_holds_through(text, section, resets);
    if a.reset is Some {
        let r = a.reset->0 as int;
        let part = "resets in "@ + dur_text(whole_gap(r, now as int));
        lemma_resets_hold(cur, a.rate, r, at, now as int);
        lemma_holds_through(text, resets, part);
        lemma_holds_through(text, resets, race_text(cur, a.rate, r, now as int));
    }
    assert(analysis_at(a, hist, win, i, window, now as int));
}

proof fn lemma_section_tail(label: Seq<char>, a: Analysis, at: Option<Hms>, now: int)
    ensures
        holds(
            window_section(label, a, at, now),
            resets_text(a.cur as int, a.rate, a.reset, at, now),
        ),
        holds(window_section(label, a, at, now), headroom_text(a.cur as int, a.conv)),
{
    let head = window_head(label, a.cur);
    let pace = pace_text(a.cur as int, a.rate);
    let resets = resets_text(a.cur as int, a.rate, a.reset, at, now);
    let room = headroom_text(a.cur as int, a.conv);
    lemma_six_pieces(head, pace, resets, "\n"@, room, "\n"@);
}

proof fn lemma_six_pieces(
    a: Seq<char>,
    b: Seq<char>,
    c: Seq<char>,
    d: Seq<char>,
    e: Seq<char>,
    f: Seq<char>,
)
    ensures
        holds(a + b + c + d + e + f, c),
        holds(a + b + c + d + e + f, e),
{
    assert(a + b + c + d + e + f =~= (a + b) + c + (d + e + f));
    lemma_holds(a + b, c, d + e + f);
    lemma_holds(a + b + c + d, e, f);
}

proof fn lemma_resets_hold(cur: int, rate: Option<i64>, r: int, at: Option<Hms>, now: int)
    requires
        i64::MIN <= r <= i64::MAX,
    ensures
        holds(
            resets_text(cur, rate, Some(r as i64), at, now),
            "resets in "@ + dur_text(whole_gap(r, now)),
        ),
        holds(resets_text(cur, rate, Some(r as i64), at, now), race_text(cur, rate, r, now)),
{
    let none = Seq::<char>::empty();
    let gap = dur_text(whole_gap(r, now));
    let part = "resets in "@ + gap;
    let body = "   resets in "@ + gap + at_clock(at);
    reveal_strlit("   resets in ");
    reveal_strlit("resets in ");
    reveal_strlit("   ");
    assert("   resets in "@ =~= "   "@ + "resets in "@);
    assert(body =~= "   "@ + part + at_clock(at));
    lemma_holds("   "@, part, at_clock(at));
    lemma_holds(DIM@, body, RESET@);
    lemma_holds_through(painted(DIM, body), body, part);
    let race = race_text(cur, rate, r, now);
    lemma_holds(none, painted(DIM, body), race);
    lemma_holds(painted(DIM, body), race, none);
    lemma_holds_through(painted(DIM, body) + race, painted(DIM, body), part);
}

/// A window that no sample states, or that has reset since the last one that does, is left out.
pub proof fn a_window_that_has_reset_is_left_out(
    section: Seq<char>,
    hist: Seq<Sample>,
    win: Win,
    window: int,
    at: Option<Hms>,
    now: int,
)
    requires
        is_section(section, hist, label_of(win), win, window, at, now),
        (forall|j: int| 0 <= j < hist.len() ==> stated_pct(win, #[trigger] hist[j]) is None) || (
        exists|i: int| #[trigger]
            speaks_for(hist, win, i) && (stated_reset(win, hist[i]) matches Some(r) && r <= now)),
    ensures
        section == Seq::<char>::empty(),
{
    lemma_last_report(hist, win);
    if exists|i: int| #[trigger]
        speaks_for(hist, win, i) && (stated_reset(win, hist[i]) matches Some(r) && r <= now) {
        let i = choose|i: int| #[trigger]
            speaks_for(hist, win, i) && (stated_reset(win, hist[i]) matches Some(r) && r <= now);
        lemma_speaks(hist, win, i);
    } else if last_report(hist, win) is Some {
        assert(stated_pct(win, hist[last_report(hist, win)->0]) is None);
    }
}

// ---------------------------------------------------------------------------------------
// What one percent is worth
// ---------------------------------------------------------------------------------------

/// Whether a sample states a window's percentage before the reset `cur`.
pub open spec fn states(win: Win, cur: Option<Num>) -> spec_fn(Sample) -> bool {
    |s: Sample| stated_pct(win, s) is Some && states_reset(win, s, cur)
}

proof fn lemma_segment(hist: Seq<Sample>, win: Win, cur: Option<Num>)
    ensures
        segment_of(hist, win, cur).len() == hist.filter(states(win, cur)).len(),
        forall|i: int|
            0 <= i < segment_of(hist, win, cur).len() ==> #[trigger] segment_of(hist, win, cur)[i]
                == (
                hist.filter(states(win, cur))[i].t,
                stated_pct(win, hist.filter(states(win, cur))[i])->0,
            ),
    decreases hist.len(),
{
    reveal(Seq::filter);
    let pred = states(win, cur);
    let seg = segment_of(hist, win, cur);
    if hist.len() > 0 {
        let head = hist.drop_last();
        let s = hist.last();
        lemma_segment(head, win, cur);
        let before = segment_of(head, win, cur);
        let listed = head.filter(pred);
        assert(pred(s) == (win.pct_in(s) is Some && same_reset(win.reset_in(s), cur)));
        if pred(s) {
            assert(hist.filter(pred) == listed.push(s));
            let p: Point = (s.t, stated_pct(win, s)->0);
            assert(seg == before.push(p));
            assert forall|i: int| 0 <= i < seg.len() implies #[trigger] seg[i] == (
                hist.filter(pred)[i].t,
                stated_pct(win, hist.filter(pred)[i])->0,
            ) by {
                if i < before.len() {
                    assert(seg[i] == before[i]);
                }
            }
        }
    }
}

/// One percent of a window is worth what was burned while its percentage rose, from the first sample
/// that states it before the current reset to the last, over the rise: the dollars of all sessions,
/// and their tokens, those that went in and those that came out. Where nothing was burned it is worth
/// nothing that is known.
pub proof fn a_percent_is_worth_what_was_burned(
    a: Analysis,
    hist: Seq<Sample>,
    win: Win,
    i: int,
    window: int,
    now: int,
)
    requires
        analysis_at(a, hist, win, i, window, now),
        hist.filter(states(win, num_of(stated_reset(win, hist[i])))).len() >= 2,
    ensures
        ({
            let stated = hist.filter(states(win, num_of(stated_reset(win, hist[i]))));
            let (first, last) = (stated[0], stated.last());
            let rise = held_gap(
                stated_pct(win, last)->0 as int,
                stated_pct(win, first)->0 as int,
            );
            let usd = session_delta(hist, Counter::Usd, first.t as int, last.t as int);
            let tokens_in = session_delta(hist, Counter::TokensIn, first.t as int, last.t as int);
            let tokens_out = session_delta(hist, Counter::TokensOut, first.t as int, last.t as int);
            let tokens = or_zero(tokens_in) + or_zero(tokens_out);
            &&& rise.digits == 0 ==> a.conv is None
            &&& rise.digits > 0 ==> a.conv is Some && {
                let (dollars, tok) = conv_view(a.conv)->0;
                &&& usd is Some && usd->0 > 0 ==> dollars == Some(
                    held_micros(usd->0 as nat).over(rise),
                )
                &&& usd is None || usd->0 <= 0 ==> dollars is None
                &&& tokens > 0 ==> tok == Some(held_whole(tokens as nat).over(rise))
                &&& tokens <= 0 ==> tok is None
            }
        }),
{
    assert(stated_reset(win, hist[i]) == win.reset_in(hist[i]));
    let cur = num_of(stated_reset(win, hist[i]));
    lemma_segment(hist, win, cur);
    let seg = segment_of(hist, win, cur);
    let stated = hist.filter(states(win, cur));
    assert(seg[0] == (stated[0].t, stated_pct(win, stated[0])->0));
    let n = seg.len() - 1;
    assert(seg[n] == (stated[n].t, stated_pct(win, stated[n])->0));
}

// ---------------------------------------------------------------------------------------
// The report and the status line
// ---------------------------------------------------------------------------------------

/// Where a window burns more than half a percent an hour, the report says that the cap comes first
/// exactly if the status line warns of it.
pub proof fn the_report_and_the_line_agree_on_the_cap(cur: i64, rate: i64, reset: i64, now: i64)
    requires
        cur < 100_000_000,
        rate > 500_000,
        cap_eta(cur as int, rate as int).digits > 0,
    ensures
        cap_warning(
            Some(Num::Finite(cur)),
            Some(Num::Finite(reset)),
            rate as int,
            now as int,
        ) is Some ==> race_text(cur as int, Some(rate), reset as int, now as int) == "  "@ + painted(
            RED,
            "→ hits cap first"@,
        ),
        cap_warning(
            Some(Num::Finite(cur)),
            Some(Num::Finite(reset)),
            rate as int,
            now as int,
        ) is None ==> race_text(cur as int, Some(rate), reset as int, now as int) == "  "@ + painted(
            GREEN,
            "→ resets first"@,
        ),
{
}

/// The report's verdict on the budget is the one that the status line warns of, and both name the
/// same time.
pub proof fn the_report_and_the_line_agree_on_the_budget(
    today: int,
    budget: i64,
    rate: Option<DayRate>,
    next_midnight: int,
    now: int,
)
    ensures
        ({
            let verdict = verdict_text(outcome(today, budget as int, rate, next_midnight, now));
            let warning = budget_warning(today, Some(budget), rate, next_midnight, now);
            ||| today >= budget && warning == Some("⚠ over budget"@) && verdict == " "@ + painted(
                RED,
                "— over budget"@,
            )
            ||| today < budget && warning is None && verdict == " "@ + painted(
                GREEN,
                "→ rolls over first"@,
            )
            ||| today < budget && exists|secs: int|
                warning == Some("⚠ budget "@ + #[trigger] dur_text(secs)) && verdict == painted(
                    DIM,
                    ", ETA "@ + dur_text(secs),
                ) + " "@ + painted(RED, "→ hits budget before midnight"@)
        }),
{
    match outcome(today, budget as int, rate, next_midnight, now) {
        BudgetOutcome::HitsBudget { eta_secs } => {
            assert(dur_text(eta_secs as int) == dur_text(eta_secs as int));
        },
        _ => {},
    }
}

/// The report shows what was spent today where any session was billed today.
pub proof fn the_spend_of_the_day_is_reported(
    text: Seq<char>,
    hist: Seq<Sample>,
    setting: ReportSetting,
    now: i64,
    times: LocalTimes,
)
    requires
        is_report(text, hist, setting, now, times),
        hist.len() >= 2,
        keys_in(today_events(hist, times.midnight as int, None, now as int)).len() > 0,
    ensures
        holds(
            text,
            painted(BOLD, "day"@) + "  "@ + painted(
                BOLD,
                usd_text(clamp_i64(day_total(hist, times.midnight as int, None, now as int))),
            ) + " today "@,
        ),
{
    let total = clamp_i64(day_total(hist, times.midnight as int, None, now as int));
    let part = painted(BOLD, "day"@) + "  "@ + painted(BOLD, usd_text(total)) + " today "@;
    let section = lemma_report_holds(text, hist, setting, now, times, Win::FiveHour);
    let day = day_section(hist, setting, now, times);
    let rate = shown_rate(
        day_rate_of(hist, None, window_micros(setting.window_min as int), now),
    );
    let n = keys_in(today_events(hist, times.midnight as int, None, now as int)).len();
    lemma_day_holds(total, n, rate, setting, now as int, times);
    lemma_holds_through(text, day, part);
}

/// The report says how many samples it rests on, and how much time they span. With fewer than two it
/// says no more than that they are too few.
pub proof fn the_report_says_what_it_rests_on(
    text: Seq<char>,
    hist: Seq<Sample>,
    setting: ReportSetting,
    now: i64,
    times: LocalTimes,
)
    requires
        is_report(text, hist, setting, now, times),
    ensures
        hist.len() >= 2 ==> holds(
            text,
            dec(hist.len()) + " samples over "@ + dur_text(
                clamp_i64(hist.last().t - hist[0].t),
            ),
        ),
        hist.len() < 2 ==> text == "Not enough samples yet ("@ + dec(hist.len())
            + "). The status line logs ~1/min while sessions are active — check back in a few minutes.\n"@,
{
    if hist.len() >= 2 {
        let span = clamp_i64(hist.last().t - hist[0].t);
        let part = dec(hist.len()) + " samples over "@ + dur_text(span);
        lemma_report_titled(text, hist, setting, now, times);
        lemma_title_holds(setting.host, hist.len(), span);
        lemma_holds_through(text, title_text(setting.host, hist.len(), span), part);
    }
}

proof fn lemma_title_holds(host: Host, n: nat, span: int)
    ensures
        holds(title_text(host, n, span), dec(n) + " samples over "@ + dur_text(span)),
{
    let none = Seq::<char>::empty();
    let part = dec(n) + " samples over "@ + dur_text(span);
    let body = "  ("@ + dec(n) + " samples over "@ + dur_text(span) + ")"@;
    assert(body =~= "  ("@ + part + ")"@);
    lemma_holds("  ("@, part, ")"@);
    lemma_holds(DIM@, body, RESET@);
    let head = painted(BOLD, host.name@ + " usage — burn rate"@);
    lemma_holds(head, painted(DIM, body), "\n\n"@);
    lemma_holds_through(painted(DIM, body), body, part);
    lemma_holds_through(title_text(host, n, span), painted(DIM, body), part);
}

proof fn lemma_report_titled(
    text: Seq<char>,
    hist: Seq<Sample>,
    setting: ReportSetting,
    now: i64,
    times: LocalTimes,
)
    requires
        is_report(text, hist, setting, now, times),
        hist.len() >= 2,
    ensures
        holds(
            text,
            title_text(setting.host, hist.len(), clamp_i64(hist.last().t - hist[0].t)),
        ),
{
    let window = setting.window_min * 60;
    let (five, week) = choose|five: Seq<char>, week: Seq<char>|
        #![trigger is_section(five, hist, "5h"@, Win::FiveHour, window, times.five_hour, now as int),
            is_section(week, hist, "wk"@, Win::SevenDay, window, times.seven_day, now as int)]
        {
            &&& is_section(five, hist, "5h"@, Win::FiveHour, window, times.five_hour, now as int)
            &&& is_section(week, hist, "wk"@, Win::SevenDay, window, times.seven_day, now as int)
            &&& text == title_text(
                setting.host,
                hist.len(),
                clamp_i64(hist.last().t - hist[0].t),
            ) + five + week + day_section(hist, setting, now, times) + notes_text(
                setting.host,
                is_current(hist, Win::FiveHour, now as int) || is_current(
                    hist,
                    Win::SevenDay,
                    now as int,
                ),
                keys_in(today_events(hist, times.midnight as int, None, now as int)).len() > 0,
            )
        };
    let notes = notes_text(
        setting.host,
        is_current(hist, Win::FiveHour, now as int) || is_current(hist, Win::SevenDay, now as int),
        keys_in(today_events(hist, times.midnight as int, None, now as int)).len() > 0,
    );
    let title = title_text(setting.host, hist.len(), clamp_i64(hist.last().t - hist[0].t));
    lemma_first_of_five(title, five, week, day_section(hist, setting, now, times), notes);
}

proof fn lemma_first_of_five(
    a: Seq<char>,
    b: Seq<char>,
    c: Seq<char>,
    d: Seq<char>,
    e: Seq<char>,
)
    ensures
        holds(a + b + c + d + e, a),
{
    assert(a + b + c + d + e =~= a + (b + c + d + e));
    lemma_holds(Seq::empty(), a, b + c + d + e);
}

/// Where a budget is set the day section names it, with the share of it that is spent in the colour
/// of how much that is, and the verdict. Where one is set that cannot be read, it says so.
pub proof fn the_budget_is_reported(
    total: int,
    setting: ReportSetting,
    rate: Option<DayRate>,
    next_midnight: int,
    now: int,
    budget: i64,
)
    requires
        setting.budget matches Some(v) && budget_of(v@) == Some(budget),
    ensures
        ({
            let text = budget_text(total, setting, rate, next_midnight, now);
            let spent = held_pct(total as nat, budget as nat);
            &&& holds(text, "budget "@ + usd_text(budget as int) + "/day — "@)
            &&& holds(
                text,
                painted(
                    fill_color(Num::Finite(clamp_i64(spent.cut()) as i64)),
                    held_text(spent, 0) + "%"@,
                ),
            )
            &&& holds(text, verdict_text(outcome(total, budget as int, rate, next_midnight, now)))
        }),
{
    let text = budget_text(total, setting, rate, next_midnight, now);
    let spent = held_pct(total as nat, budget as nat);
    let num = Num::Finite(clamp_i64(spent.cut()) as i64);
    a_percentage_has_one_colour(num);
    let name = "budget "@ + usd_text(budget as int) + "/day — "@;
    let figure = painted(fill_color(num), held_text(spent, 0) + "%"@);
    let used = painted(DIM, " used"@);
    let verdict = verdict_text(outcome(total, budget as int, rate, next_midnight, now));
    let lead = "      "@ + DIM@;
    assert(text == "      "@ + DIM@ + "budget "@ + usd_text(budget as int) + "/day — "@ + figure
        + used + verdict + "\n"@);
    lemma_three_more(lead, "budget "@, usd_text(budget as int), "/day — "@, figure);
    lemma_budget_pieces(lead, name, figure, used, verdict, "\n"@);
}

proof fn lemma_three_more(
    lead: Seq<char>,
    a: Seq<char>,
    b: Seq<char>,
    c: Seq<char>,
    d: Seq<char>,
)
    ensures
        lead + a + b + c + d == lead + (a + b + c) + d,
{
    assert(lead + a + b + c + d =~= lead + (a + b + c) + d);
}

proof fn lemma_budget_pieces(
    lead: Seq<char>,
    a: Seq<char>,
    b: Seq<char>,
    c: Seq<char>,
    d: Seq<char>,
    end: Seq<char>,
)
    ensures
        holds(lead + a + b + c + d + end, a),
        holds(lead + a + b + c + d + end, b),
        holds(lead + a + b + c + d + end, d),
{
    let text = lead + a + b + c + d + end;
    assert(text =~= lead + a + (b + c + d + end));
    lemma_holds(lead, a, b + c + d + end);
    assert(text =~= lead + a + b + (c + d + end));
    lemma_holds(lead + a, b, c + d + end);
    lemma_holds(lead + a + b + c, d, end);
}

} // verus!
