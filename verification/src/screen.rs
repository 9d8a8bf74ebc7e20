//! Laws of what a reader sees: which colour a figure is painted in, which payload value stands
//! where on the line, and when a warning is shown.

use vstd::prelude::*;

use crate::bars::{bar_color, framed_share_text, share_opt};
use crate::burn::{burn_body, cap_warning, segment_of, segment_rate, Win};
use crate::double::{held_whole, lemma_no_gap};
use crate::fmt::{
    band, dur_text, painted, suffix_colored, suffix_plain, tokens_text, usd_rate_text, usd_text, Hms, AMBER, DIM,
    GRAY, GREEN, RED, RESET,
};
use crate::history::Sample;
use crate::json::{child, mode_of, nested_tree, number_at, number_under, Mode, Tree};
use crate::keeping::{lemma_limits_entry, lemma_two_steps, limits_entry};
use crate::localtime::day_on;
use crate::log::{finite_cost, limit_pct, limit_reset, payload_key};
use crate::memory::{
    fullness, int_spec, mem_spec, newlines, segment_text, stat_of, utf16_len, ProjectMemory,
};
use crate::num::{clamp_i64, Num};
use crate::series::keys_in;
use crate::spend::{
    budget_warning, day_rate_of, day_total, outcome, spend_body, today_events, BudgetOutcome,
    DayRate, LiveCounter,
};
use crate::statusline::{
    bars_text, budget_in, budget_pct, cells_left, context_part, context_value, cost_part, day_right,
    day_text, effort_part, header_parts, header_text, held_for, line_text, live_counter, longer,
    memory_parts, model_part, padded2, part_of, pct_field, quiet_message, render_text, reset_text_of,
    right_text, rollover_in, shown_rate, tail_text, times_on, width_of, window_suffix, LocalTimes,
    Surroundings,
};
use crate::text::{dec, dec_int, joined};

verus! {

// ---------------------------------------------------------------------------------------
// Texts within texts
// ---------------------------------------------------------------------------------------

/// A text with one before it and one behind it.
pub open spec fn between(a: Seq<char>, part: Seq<char>, b: Seq<char>) -> Seq<char> {
    a + part + b
}

/// Whether `part` stands somewhere in `text`.
pub open spec fn holds(text: Seq<char>, part: Seq<char>) -> bool {
    exists|a: Seq<char>, b: Seq<char>| text == #[trigger] between(a, part, b)
}

pub(crate) proof fn lemma_holds(a: Seq<char>, part: Seq<char>, b: Seq<char>)
    ensures
        holds(a + part + b, part),
        holds(part + b, part),
        holds(a + part, part),
        holds(part, part),
{
    let none = Seq::<char>::empty();
    assert(a + part + b == between(a, part, b));
    assert(part + b =~= between(none, part, b));
    assert(a + part =~= between(a, part, none));
    assert(part =~= between(none, part, none));
}

pub(crate) proof fn lemma_holds_through(text: Seq<char>, mid: Seq<char>, part: Seq<char>)
    requires
        holds(text, mid),
        holds(mid, part),
    ensures
        holds(text, part),
{
    let (a, b) = choose|a: Seq<char>, b: Seq<char>| text == #[trigger] between(a, mid, b);
    let (c, d) = choose|c: Seq<char>, d: Seq<char>| mid == #[trigger] between(c, part, d);
    assert(text =~= between(a + c, part, d + b));
}

proof fn lemma_joined_holds(parts: Seq<Seq<char>>, sep: Seq<char>, i: int)
    requires
        0 <= i < parts.len(),
    ensures
        holds(joined(parts, sep), parts[i]),
    decreases parts.len(),
{
    let none = Seq::<char>::empty();
    if parts.len() == 1 {
        lemma_holds(none, parts[0], none);
    } else if i == parts.len() - 1 {
        lemma_holds(joined(parts.drop_last(), sep) + sep, parts[i], none);
    } else {
        let head = parts.drop_last();
        lemma_joined_holds(head, sep, i);
        assert(head[i] == parts[i]);
        let rest = sep + parts.last();
        lemma_holds(none, joined(head, sep), rest);
        assert(joined(head, sep) + sep + parts.last() =~= joined(head, sep) + rest);
        lemma_holds_through(joined(parts, sep), joined(head, sep), parts[i]);
    }
}

/// Whether a header shows a figure in a colour behind its dim label.
pub open spec fn shows_in(
    header: Option<Seq<char>>,
    label: Seq<char>,
    color: &'static str,
    figure: Seq<char>,
) -> bool {
    header matches Some(h) && holds(h, painted(DIM, label) + painted(color, figure))
}

proof fn lemma_header_holds(
    t: Tree,
    session_usd: Option<i64>,
    memory: ProjectMemory,
    part: Seq<char>,
)
    requires
        context_part(t) == seq![part] || memory_parts(memory).contains(part) || cost_part(
            session_usd,
        ) == seq![part] || model_part(t) == seq![part] || effort_part(t) == seq![part],
    ensures
        header_text(t, session_usd, memory) matches Some(h) && holds(h, part),
{
    let parts = header_parts(t, session_usd, memory);
    let (m, e, c, u, f) = (
        model_part(t),
        effort_part(t),
        context_part(t),
        cost_part(session_usd),
        memory_parts(memory),
    );
    let i: int = if m == seq![part] {
        0
    } else if e == seq![part] {
        m.len() as int
    } else if c == seq![part] {
        (m.len() + e.len()) as int
    } else if u == seq![part] {
        (m.len() + e.len() + c.len()) as int
    } else {
        (m.len() + e.len() + c.len() + u.len()) as int + f.index_of(part)
    };
    assert(seq![part][0] == part);
    assert(parts[i] == part);
    lemma_joined_holds(parts, painted(DIM, " · "@), i);
}

// ---------------------------------------------------------------------------------------
// The header
// ---------------------------------------------------------------------------------------

/// The colour of a context of so many tokens, which fill so much of the window: red from half a
/// million tokens or nine tenths of the window on, amber from two hundred thousand or seven tenths.
pub open spec fn context_color(tokens: Num, pct: Num) -> &'static str {
    if tokens.at_least(500_000_000_000) || pct.at_least(90_000_000) {
        RED
    } else if tokens.at_least(200_000_000_000) || pct.at_least(70_000_000) {
        AMBER
    } else {
        GREEN
    }
}

/// The header shows the context in the colour of its size and of its share of the window, whichever
/// is the more severe: a context of half a million tokens is red whatever the window's percentage,
/// and one of two hundred thousand is never green.
pub proof fn a_large_context_is_painted_so(
    t: Tree,
    session_usd: Option<i64>,
    memory: ProjectMemory,
    pct: Num,
    tokens: Num,
)
    requires
        number_at(t, seq!["context_window"@, "used_percentage"@]) == Some(pct),
        number_at(t, seq!["context_window"@, "total_input_tokens"@]) == Some(tokens),
    ensures
        shows_in(
            header_text(t, session_usd, memory),
            "ctx "@,
            context_color(tokens, pct),
            context_value(pct, Some(tokens)),
        ),
        tokens.at_least(500_000_000_000) ==> shows_in(
            header_text(t, session_usd, memory),
            "ctx "@,
            RED,
            context_value(pct, Some(tokens)),
        ),
        tokens.at_least(200_000_000_000) ==> shows_in(
            header_text(t, session_usd, memory),
            "ctx "@,
            AMBER,
            context_value(pct, Some(tokens)),
        ) || shows_in(
            header_text(t, session_usd, memory),
            "ctx "@,
            RED,
            context_value(pct, Some(tokens)),
        ),
{
    let part = painted(DIM, "ctx "@) + painted(
        context_color(tokens, pct),
        context_value(pct, Some(tokens)),
    );
    assert(context_part(t) =~= seq![part]);
    lemma_header_holds(t, session_usd, memory, part);
}

/// Without a count of tokens the context is sized by its share of the window, and painted as if the
/// payload had counted as many.
pub proof fn a_context_is_sized_by_its_share(
    t: Tree,
    session_usd: Option<i64>,
    memory: ProjectMemory,
    pct: Num,
    size: Num,
)
    requires
        number_at(t, seq!["context_window"@, "used_percentage"@]) == Some(pct),
        number_at(t, seq!["context_window"@, "total_input_tokens"@]) is None,
        number_at(t, seq!["context_window"@, "context_window_size"@]) == Some(size),
    ensures
        shows_in(
            header_text(t, session_usd, memory),
            "ctx "@,
            context_color(part_of(pct, size), pct),
            context_value(pct, Some(part_of(pct, size))),
        ),
{
    let tokens = part_of(pct, size);
    let part = painted(DIM, "ctx "@) + painted(
        context_color(tokens, pct),
        context_value(pct, Some(tokens)),
    );
    assert(context_part(t) =~= seq![part]);
    lemma_header_holds(t, session_usd, memory, part);
}

/// The context shows its percentage, and behind it, in brackets, its tokens where there are any.
pub proof fn the_context_shows_its_tokens(pct: Num, tokens: Num)
    ensures
        tokens.above(0) ==> context_value(pct, Some(tokens)) == dec_int(pct.rounded()) + "%"@ + (
        " ("@ + tokens_text(tokens) + ")"@),
        !tokens.above(0) ==> context_value(pct, Some(tokens)) == dec_int(pct.rounded()) + "%"@,
{
    let none = Seq::<char>::empty();
    assert(dec_int(pct.rounded()) + "%"@ + none =~= dec_int(pct.rounded()) + "%"@);
}

/// Without a count of tokens or a size of the window the share alone decides the colour.
pub proof fn a_full_context_is_painted_so(
    t: Tree,
    session_usd: Option<i64>,
    memory: ProjectMemory,
    pct: Num,
)
    requires
        number_at(t, seq!["context_window"@, "used_percentage"@]) == Some(pct),
        number_at(t, seq!["context_window"@, "total_input_tokens"@]) is None,
        number_at(t, seq!["context_window"@, "context_window_size"@]) is None,
    ensures
        shows_in(
            header_text(t, session_usd, memory),
            "ctx "@,
            context_color(Num::Finite(0), pct),
            dec_int(pct.rounded()) + "%"@,
        ),
{
    let figure = dec_int(pct.rounded()) + "%"@;
    let part = painted(DIM, "ctx "@) + painted(context_color(Num::Finite(0), pct), figure);
    assert(context_value(pct, None) =~= figure);
    assert(context_part(t) =~= seq![part]);
    lemma_header_holds(t, session_usd, memory, part);
}

/// The colour of a memory file of so many lines and UTF-16 units.
pub open spec fn memory_color(
    lines: int,
    units: int,
    line_budget: int,
    line_cap: int,
    unit_budget: int,
    unit_cap: int,
) -> &'static str {
    if lines >= line_cap || units >= unit_cap {
        RED
    } else if lines >= line_budget || units >= unit_budget {
        AMBER
    } else {
        GREEN
    }
}

/// The header shows the project's memory: the index is red from 200 lines or 25,000 UTF-16 units on,
/// where its tail is dropped, and amber from 190 lines or 20,000 units; the curated file is red from
/// 224 lines or 28,000 units, and amber from 200 lines or 25,000. A file has one line more than it
/// has line ends.
pub proof fn a_large_memory_is_painted_so(
    t: Tree,
    session_usd: Option<i64>,
    memory: ProjectMemory,
)
    ensures
        memory.index matches Some(text) ==> newlines(text@) + 1 <= usize::MAX && utf16_len(text@)
            <= usize::MAX ==> shows_in(
            header_text(t, session_usd, memory),
            "mem"@ + " "@,
            memory_color(
                newlines(text@) as int + 1,
                utf16_len(text@) as int,
                190,
                200,
                20_000,
                25_000,
            ),
            dec_int(fullness(mem_spec(), stat_of(text@))) + "% ("@ + dec(newlines(text@) + 1)
                + "ln)"@,
        ),
        memory.intuition matches Some(text) ==> newlines(text@) + 1 <= usize::MAX && utf16_len(
            text@,
        ) <= usize::MAX ==> shows_in(
            header_text(t, session_usd, memory),
            "int"@ + " "@,
            memory_color(
                newlines(text@) as int + 1,
                utf16_len(text@) as int,
                200,
                224,
                25_000,
                28_000,
            ),
            dec_int(fullness(int_spec(), stat_of(text@))) + "% ("@ + dec(newlines(text@) + 1)
                + "ln)"@,
        ),
{
    let parts = memory_parts(memory);
    if memory.index is Some {
        let part = segment_text(mem_spec(), stat_of(memory.index->0@));
        assert(parts[0] == part);
        lemma_header_holds(t, session_usd, memory, part);
    }
    if memory.intuition is Some {
        let part = segment_text(int_spec(), stat_of(memory.intuition->0@));
        assert(parts[parts.len() - 1] == part);
        lemma_header_holds(t, session_usd, memory, part);
    }
}

/// Line ends and UTF-16 units add up over the pieces of a text.
pub proof fn a_text_measures_as_its_pieces(a: Seq<char>, b: Seq<char>)
    ensures
        newlines(a + b) == newlines(a) + newlines(b),
        utf16_len(a + b) == utf16_len(a) + utf16_len(b),
    decreases b.len(),
{
    if b.len() > 0 {
        a_text_measures_as_its_pieces(a, b.drop_last());
        assert((a + b).drop_last() =~= a + b.drop_last());
    } else {
        assert(a + b =~= a);
    }
}

/// A line end counts as one, and no other character does. A character beyond the basic plane is
/// written in two UTF-16 units, and any other in one.
pub proof fn a_character_measures_one_or_two(c: char)
    ensures
        newlines(seq![c]) == if c == '\n' {
            1nat
        } else {
            0
        },
        utf16_len(seq![c]) == if c as int >= 0x1_0000 {
            2nat
        } else {
            1
        },
{
    assert(seq![c].drop_last() =~= Seq::<char>::empty());
    reveal_with_fuel(newlines, 2);
    reveal_with_fuel(utf16_len, 2);
}

/// The header names the model and the effort that the payload states, and the session's cost where
/// it is money.
pub proof fn the_header_names_what_the_payload_states(
    t: Tree,
    session_usd: Option<i64>,
    memory: ProjectMemory,
    w: Tree,
    name: Seq<char>,
)
    ensures
        child(t, "model"@) == Some(w) && child(w, "display_name"@) == Some(Tree::Str(name)) ==> (
        header_text(t, session_usd, memory) matches Some(h) && holds(h, painted(DIM, name))),
        child(t, "effort"@) == Some(w) && child(w, "level"@) == Some(Tree::Str(name)) ==> (
        header_text(t, session_usd, memory) matches Some(h) && holds(
            h,
            painted(DIM, "effort: "@ + name),
        )),
        session_usd matches Some(u) ==> (header_text(t, session_usd, memory) matches Some(h)
            && holds(h, usd_text(u as int))),
{
    lemma_two_steps(t, "model"@, "display_name"@);
    lemma_two_steps(t, "effort"@, "level"@);
    if child(t, "model"@) == Some(w) && child(w, "display_name"@) == Some(Tree::Str(name)) {
        assert(model_part(t) =~= seq![painted(DIM, name)]);
        lemma_header_holds(t, session_usd, memory, painted(DIM, name));
    }
    if child(t, "effort"@) == Some(w) && child(w, "level"@) == Some(Tree::Str(name)) {
        assert(effort_part(t) =~= seq![painted(DIM, "effort: "@ + name)]);
        lemma_header_holds(t, session_usd, memory, painted(DIM, "effort: "@ + name));
    }
    if session_usd is Some {
        let part = usd_text(session_usd->0 as int);
        assert(cost_part(session_usd) =~= seq![part]);
        lemma_header_holds(t, session_usd, memory, part);
    }
}

// ---------------------------------------------------------------------------------------
// The bars
// ---------------------------------------------------------------------------------------

/// The colour of a window that is so full: red from nine tenths on, amber from eight.
pub open spec fn fill_color(pct: Num) -> &'static str {
    if pct.at_least(90_000_000) {
        RED
    } else if pct.at_least(80_000_000) {
        AMBER
    } else {
        GREEN
    }
}

/// A percentage has one colour, in the bar and beside it.
pub proof fn a_percentage_has_one_colour(pct: Num)
    ensures
        band(Some(pct)) == fill_color(pct),
        bar_color(Some(pct)) == fill_color(pct),
        band(None) == GRAY,
        bar_color(None) == GRAY,
{
}

/// A window's line up to its reset: the label, the bar, the percentage and the time until the reset.
pub open spec fn window_line(label: Seq<char>, pct: Num, width: nat, rt: Seq<char>) -> Seq<char> {
    painted(DIM, label) + "  "@ + framed_share_text(share_opt(Some(pct)), fill_color(pct), width)
        + " "@ + painted(fill_color(pct), padded2(dec_int(pct.rounded())) + "%"@) + "  "@ + painted(
        DIM,
        rt,
    )
}

/// Which window a name in the payload stands for, and the label of its line.
pub open spec fn names_window(name: Seq<char>, label: Seq<char>, win: Win) -> bool {
    (name == "five_hour"@ && label == "5h"@ && win == Win::FiveHour) || (name == "seven_day"@
        && label == "wk"@ && win == Win::SevenDay)
}

/// The local time at which a window resets.
pub open spec fn reset_clock(times: LocalTimes, win: Win) -> Option<Hms> {
    match win {
        Win::FiveHour => times.five_hour,
        Win::SevenDay => times.seven_day,
    }
}

proof fn lemma_line_holds(
    label: Seq<char>,
    pct: Num,
    width: nat,
    rt: Seq<char>,
    suffix: Seq<char>,
)
    ensures
        line_text(label, Some(pct), width, rt, suffix) == window_line(label, pct, width, rt)
            + tail_text(suffix),
        holds(line_text(label, Some(pct), width, rt, suffix), window_line(label, pct, width, rt)),
        suffix.len() > 0 ==> holds(line_text(label, Some(pct), width, rt, suffix), suffix),
{
    a_percentage_has_one_colour(pct);
    let none = Seq::<char>::empty();
    let line = window_line(label, pct, width, rt);
    assert(line_text(label, Some(pct), width, rt, suffix) =~= line + tail_text(suffix));
    lemma_holds(none, line, tail_text(suffix));
    if suffix.len() > 0 {
        assert(line + tail_text(suffix) =~= line + "  "@ + suffix);
        lemma_holds(line + "  "@, suffix, none);
    }
}

proof fn lemma_subscription_holds(
    t: Tree,
    now: i64,
    around: Surroundings,
    hist: Seq<Sample>,
    times: LocalTimes,
)
    requires
        mode_of(t) == Mode::Subscription,
    ensures
        holds(
            render_text(t, now, around, hist, times),
            bars_text(t, now as int, around.columns, hist, times),
        ),
{
    let none = Seq::<char>::empty();
    let path = seq!["rate_limits"@];
    reveal_with_fuel(nested_tree, 2);
    assert(path.drop_first() =~= Seq::<Seq<char>>::empty());
    let bars = bars_text(t, now as int, around.columns, hist, times);
    lemma_holds(none, bars, none);
    match header_text(t, None, *around.memory) {
        Some(h) => {
            lemma_holds(h + "\n"@, bars, none);
        },
        None => {},
    }
}

proof fn lemma_suffix_holds(r: int, warn: Option<Seq<char>>)
    ensures
        suffix_colored(Some(burn_body(r)), warn).len() > 0,
        holds(suffix_colored(Some(burn_body(r)), warn), painted(DIM, burn_body(r))),
        warn is Some ==> holds(
            suffix_colored(Some(burn_body(r)), warn),
            painted(RED, warn->0),
        ),
{
    let none = Seq::<char>::empty();
    let body = painted(DIM, burn_body(r));
    reveal_strlit("↑");
    assert(burn_body(r).len() > 0);
    lemma_holds(none, body, none);
    if warn is Some {
        let w = painted(RED, warn->0);
        lemma_holds(body + "  "@, w, none);
        lemma_holds(none, body, "  "@ + w);
        assert(body + ("  "@ + w) =~= body + "  "@ + w);
    }
}

proof fn lemma_right_columns(
    hist: Seq<Sample>,
    t: Tree,
    name: Seq<char>,
    win: Win,
    rt: Seq<char>,
    pct: Num,
    reset: Num,
    now: int,
)
    requires
        limit_pct(t, name) == Some(pct),
        limit_reset(t, name) == Some(reset),
    ensures
        right_text(rt, window_suffix(hist, t, name, win, now).0).len() == columns_right(
            rt,
            pct,
            reset,
            segment_rate(segment_of(hist, win, Some(reset)), 7_200_000_000, now),
            now,
        ),
{
    reveal_strlit("  ");
    reveal_strlit("↑");
    let rate = segment_rate(segment_of(hist, win, Some(reset)), 7_200_000_000, now);
    if rate is Some {
        assert(burn_body(rate->0).len() > 0);
    }
}

proof fn lemma_bars_hold(
    t: Tree,
    now: int,
    columns: Option<&str>,
    hist: Seq<Sample>,
    times: LocalTimes,
    name: Seq<char>,
    label: Seq<char>,
    win: Win,
) -> (width: nat)
    requires
        names_window(name, label, win),
    ensures
        8 <= width <= 150,
        width == 8 || width + 20 + right_text(
            reset_text_of(limit_reset(t, name), reset_clock(times, win), now),
            window_suffix(hist, t, name, win, now).0,
        ).len() <= width_of(columns),
        holds(
            bars_text(t, now, columns, hist, times),
            line_text(
                label,
                limit_pct(t, name),
                width,
                reset_text_of(limit_reset(t, name), reset_clock(times, win), now),
                window_suffix(hist, t, name, win, now).1,
            ),
        ),
{
    let none = Seq::<char>::empty();
    let five = window_suffix(hist, t, "five_hour"@, Win::FiveHour, now);
    let week = window_suffix(hist, t, "seven_day"@, Win::SevenDay, now);
    let rt5 = reset_text_of(limit_reset(t, "five_hour"@), times.five_hour, now);
    let rt7 = reset_text_of(limit_reset(t, "seven_day"@), times.seven_day, now);
    let width = cells_left(
        width_of(columns) as int,
        2,
        longer(right_text(rt5, five.0).len(), right_text(rt7, week.0).len()) as int,
    ) as nat;
    let l5 = line_text("5h"@, limit_pct(t, "five_hour"@), width, rt5, five.1);
    let l7 = line_text("wk"@, limit_pct(t, "seven_day"@), width, rt7, week.1);
    assert(bars_text(t, now, columns, hist, times) == l5 + "\n"@ + l7);
    lemma_holds(none, l5, "\n"@ + l7);
    assert(l5 + ("\n"@ + l7) =~= l5 + "\n"@ + l7);
    lemma_holds(l5 + "\n"@, l7, none);
    width
}

/// How many columns the text on the right of a bar takes: when the window resets, and the burn and
/// the warning behind it, where there are any.
pub open spec fn columns_right(
    rt: Seq<char>,
    pct: Num,
    reset: Num,
    rate: Option<int>,
    now: int,
) -> int {
    rt.len() + (match rate {
        None => 0,
        Some(r) => 2 + burn_body(r).len() + (match cap_warning(Some(pct), Some(reset), r, now) {
            None => 0,
            Some(warn) => 2 + warn.len() as int,
        }),
    })
}

/// On a subscription each window has its own line: the five-hour one under `5h`, the weekly one
/// under `wk`. It shows the percentage that the payload states for that window, in the colour of how
/// full it is, on a bar of 8 to 150 cells, and when the window resets. The line fits the terminal,
/// unless the bar is at its least. Where the samples of the last
/// two hours give a rate, the line goes on with it, and with the warning that the rate gives rise to.
pub proof fn a_window_stands_on_its_own_line(
    t: Tree,
    now: i64,
    around: Surroundings,
    hist: Seq<Sample>,
    times: LocalTimes,
    name: Seq<char>,
    label: Seq<char>,
    win: Win,
    w: Tree,
    pct: Num,
    reset: Num,
)
    requires
        mode_of(t) == Mode::Subscription,
        names_window(name, label, win),
        limits_entry(t, name, w),
        number_under(w, "used_percentage"@) == Some(pct),
        number_under(w, "resets_at"@) == Some(reset),
    ensures
        exists|width: nat|
            8 <= width <= 150 && (width == 8 || width + 20 + columns_right(
                reset_text_of(Some(reset), reset_clock(times, win), now as int),
                pct,
                reset,
                segment_rate(segment_of(hist, win, Some(reset)), 7_200_000_000, now as int),
                now as int,
            ) <= width_of(around.columns)) && holds(
                render_text(t, now, around, hist, times),
                #[trigger] window_line(
                    label,
                    pct,
                    width,
                    reset_text_of(Some(reset), reset_clock(times, win), now as int),
                ),
            ),
        segment_rate(segment_of(hist, win, Some(reset)), 7_200_000_000, now as int) matches Some(r)
            ==> holds(render_text(t, now, around, hist, times), painted(DIM, burn_body(r))) && (
        cap_warning(Some(pct), Some(reset), r, now as int) matches Some(warn) ==> holds(
            render_text(t, now, around, hist, times),
            painted(RED, warn),
        )),
{
    let text = render_text(t, now, around, hist, times);
    let bars = bars_text(t, now as int, around.columns, hist, times);
    lemma_limits_entry(t, name, w);
    lemma_subscription_holds(t, now, around, hist, times);
    assert(limit_pct(t, name) == Some(pct));
    assert(limit_reset(t, name) == Some(reset));
    let rt = reset_text_of(Some(reset), reset_clock(times, win), now as int);
    let suffix = window_suffix(hist, t, name, win, now as int).1;
    let width = lemma_bars_hold(t, now as int, around.columns, hist, times, name, label, win);
    let line = line_text(label, Some(pct), width, rt, suffix);
    lemma_right_columns(hist, t, name, win, rt, pct, reset, now as int);
    lemma_line_holds(label, pct, width, rt, suffix);
    lemma_holds_through(text, bars, line);
    lemma_holds_through(text, line, window_line(label, pct, width, rt));
    let rate = segment_rate(segment_of(hist, win, Some(reset)), 7_200_000_000, now as int);
    if rate is Some {
        let r = rate->0;
        let warn = cap_warning(Some(pct), Some(reset), r, now as int);
        assert(suffix == suffix_colored(Some(burn_body(r)), warn));
        lemma_suffix_holds(r, warn);
        lemma_holds_through(text, line, suffix);
        lemma_holds_through(text, suffix, painted(DIM, burn_body(r)));
        if warn is Some {
            lemma_holds_through(text, suffix, painted(RED, warn->0));
        }
    }
}

/// The cells of a bar that has so many columns: 8 at least and 150 at most.
pub open spec fn room(columns: int) -> nat {
    if columns < 8 {
        8
    } else if columns > 150 {
        150
    } else {
        columns as nat
    }
}

pub open spec fn wider(a: int, b: int) -> int {
    if a > b {
        a
    } else {
        b
    }
}

/// Both bars are of one width. It is what the terminal leaves beside the longer of the texts on the
/// right, with twenty columns for the rest of the line.
pub proof fn both_bars_take_what_is_left(
    t: Tree,
    now: int,
    columns: Option<&str>,
    hist: Seq<Sample>,
    times: LocalTimes,
    five: (Num, Num),
    week: (Num, Num),
)
    requires
        limit_pct(t, "five_hour"@) == Some(five.0),
        limit_reset(t, "five_hour"@) == Some(five.1),
        limit_pct(t, "seven_day"@) == Some(week.0),
        limit_reset(t, "seven_day"@) == Some(week.1),
    ensures
        ({
            let rt5 = reset_text_of(Some(five.1), times.five_hour, now);
            let rt7 = reset_text_of(Some(week.1), times.seven_day, now);
            let rate5 = segment_rate(
                segment_of(hist, Win::FiveHour, Some(five.1)),
                7_200_000_000,
                now,
            );
            let rate7 = segment_rate(
                segment_of(hist, Win::SevenDay, Some(week.1)),
                7_200_000_000,
                now,
            );
            let width = room(
                width_of(columns) - 20 - wider(
                    columns_right(rt5, five.0, five.1, rate5, now),
                    columns_right(rt7, week.0, week.1, rate7, now),
                ),
            );
            bars_text(t, now, columns, hist, times) == line_text(
                "5h"@,
                Some(five.0),
                width,
                rt5,
                window_suffix(hist, t, "five_hour"@, Win::FiveHour, now).1,
            ) + "\n"@ + line_text(
                "wk"@,
                Some(week.0),
                width,
                rt7,
                window_suffix(hist, t, "seven_day"@, Win::SevenDay, now).1,
            )
        }),
{
    let rt5 = reset_text_of(Some(five.1), times.five_hour, now);
    let rt7 = reset_text_of(Some(week.1), times.seven_day, now);
    lemma_right_columns(hist, t, "five_hour"@, Win::FiveHour, rt5, five.0, five.1, now);
    lemma_right_columns(hist, t, "seven_day"@, Win::SevenDay, rt7, week.0, week.1, now);
}

/// The bar of the day takes what the terminal leaves beside the text on its right, with twenty-one
/// columns for the rest of the line. It shows no more than all of the budget.
pub proof fn the_bar_of_the_day_takes_what_is_left(
    total: int,
    budget: i64,
    rate: Option<DayRate>,
    columns: Option<&str>,
    times: LocalTimes,
    now: int,
)
    ensures
        ({
            let rt = usd_text(total) + " of "@ + usd_text(budget as int) + " · "@ + rollover_in(
                times.next_midnight as int,
                times.rollover,
                now,
            );
            let plain = suffix_plain(
                spend_body(rate),
                budget_warning(total, Some(budget), rate, times.next_midnight as int, now),
            );
            let right = rt.len() + (if plain.len() > 0 {
                2 + plain.len() as int
            } else {
                0
            });
            let spent = budget_pct(total as nat, budget as nat);
            holds(
                day_text(total, Some(budget), rate, columns, times, now),
                painted(DIM, "day"@) + "  "@ + framed_share_text(
                    Some(spent.min(held_whole(100))),
                    fill_color(share_of_budget(total, budget as int)),
                    room(width_of(columns) - 21 - right),
                ),
            )
        }),
{
    let none = Seq::<char>::empty();
    reveal_strlit("  ");
    let rollover = rollover_in(times.next_midnight as int, times.rollover, now);
    let rt = day_right(total, budget as int, rollover);
    let warn = budget_warning(total, Some(budget), rate, times.next_midnight as int, now);
    let plain = suffix_plain(spend_body(rate), warn);
    let colored = suffix_colored(spend_body(rate), warn);
    let num = share_of_budget(total, budget as int);
    a_percentage_has_one_colour(num);
    let right = rt.len() + (if plain.len() > 0 {
        2 + plain.len() as int
    } else {
        0
    });
    assert(right_text(rt, plain).len() == right);
    let width = room(width_of(columns) - 21 - right);
    let share = Some(budget_pct(total as nat, budget as nat).min(held_whole(100)));
    let part = painted(DIM, "day"@) + "  "@ + framed_share_text(share, fill_color(num), width);
    let figure = painted(fill_color(num), pct_field(Some(num)));
    let more = " "@ + figure + "  "@ + painted(DIM, rt) + tail_text(colored);
    let text = day_text(total, Some(budget), rate, columns, times, now);
    assert(text == part + " "@ + figure + "  "@ + painted(DIM, rt) + tail_text(colored));
    lemma_regrouped(part, " "@, figure, "  "@, painted(DIM, rt), tail_text(colored));
    lemma_holds(none, part, more);
}

proof fn lemma_regrouped(
    a: Seq<char>,
    b: Seq<char>,
    c: Seq<char>,
    d: Seq<char>,
    e: Seq<char>,
    f: Seq<char>,
)
    ensures
        a + b + c + d + e + f == a + (b + c + d + e + f),
{
    assert(a + b + c + d + e + f =~= a + (b + c + d + e + f));
}

/// Beside a bar there are eighteen columns for the frame, the percentage and the margin, besides the
/// label and the text on the right. The bar takes what is left, from 8 cells to 150.
pub proof fn a_bar_takes_what_is_left(width: int, label_len: int, max_right: int)
    ensures
        8 <= cells_left(width, label_len, max_right) <= 150,
        8 <= width - 18 - label_len - max_right <= 150 ==> cells_left(width, label_len, max_right)
            == width - 18 - label_len - max_right,
        width - 18 - label_len - max_right < 8 ==> cells_left(width, label_len, max_right) == 8,
        width - 18 - label_len - max_right > 150 ==> cells_left(width, label_len, max_right) == 150,
{
}

/// The clocks on the line are those at which the windows reset, each at its own, and the one at which
/// the day rolls over.
pub proof fn the_clocks_shown_are_those_of_the_resets(
    t: Tree,
    now: int,
    c: spec_fn(i64) -> Option<Hms>,
    five: int,
    week: int,
)
    requires
        -9_000_000_000_000 <= five <= 9_000_000_000_000,
        -9_000_000_000_000 <= week <= 9_000_000_000_000,
        limit_reset(t, "five_hour"@) == Some(Num::Finite((five * 1_000_000) as i64)),
        limit_reset(t, "seven_day"@) == Some(Num::Finite((week * 1_000_000) as i64)),
    ensures
        times_on(t, now, c).five_hour == c(five as i64),
        times_on(t, now, c).seven_day == c(week as i64),
        times_on(t, now, c).rollover == c(times_on(t, now, c).next_midnight),
        (times_on(t, now, c).midnight, times_on(t, now, c).next_midnight) == day_on(now, c),
{
    assert((five * 1_000_000) / 1_000_000 == five && (-(five * 1_000_000)) / 1_000_000 == -five);
    assert((week * 1_000_000) / 1_000_000 == week && (-(week * 1_000_000)) / 1_000_000 == -week);
}

// ---------------------------------------------------------------------------------------
// The day
// ---------------------------------------------------------------------------------------

/// The counter of the session that renders, as its payload states it.
pub open spec fn rendered(t: Tree, usd: i64) -> Option<LiveCounter> {
    Some(LiveCounter { key: payload_key(t), usd })
}

proof fn lemma_suffix_parts(body: Option<Seq<char>>, warn: Option<Seq<char>>)
    ensures
        body is Some ==> suffix_colored(body, warn).len() > 0 && holds(
            suffix_colored(body, warn),
            painted(DIM, body->0),
        ),
        warn is Some ==> suffix_colored(body, warn).len() > 0 && holds(
            suffix_colored(body, warn),
            painted(RED, warn->0),
        ),
{
    let none = Seq::<char>::empty();
    reveal_strlit("\x1b[0m");
    if body is Some {
        let b = painted(DIM, body->0);
        lemma_holds(none, b, none);
        if warn is Some {
            let w = painted(RED, warn->0);
            lemma_holds(b + "  "@, w, none);
            lemma_holds(none, b, "  "@ + w);
            assert(b + ("  "@ + w) =~= b + "  "@ + w);
        }
    } else if warn is Some {
        lemma_holds(none, painted(RED, warn->0), none);
    }
}

proof fn lemma_tail(head: Seq<char>, suffix: Seq<char>)
    ensures
        holds(head + tail_text(suffix), head),
        suffix.len() > 0 ==> holds(head + tail_text(suffix), suffix),
{
    let none = Seq::<char>::empty();
    lemma_holds(none, head, tail_text(suffix));
    if suffix.len() > 0 {
        assert(head + tail_text(suffix) =~= head + "  "@ + suffix);
        lemma_holds(head + "  "@, suffix, none);
    }
}

/// The share of the budget that is spent, in millionths of a percent.
pub open spec fn share_of_budget(total: int, budget: int) -> Num {
    Num::Finite(clamp_i64(budget_pct(total as nat, budget as nat).cut()) as i64)
}

proof fn lemma_day_text_holds(
    total: int,
    budget: Option<i64>,
    rate: Option<DayRate>,
    columns: Option<&str>,
    times: LocalTimes,
    now: int,
)
    ensures
        ({
            let text = day_text(total, budget, rate, columns, times, now);
            let warn = budget_warning(total, budget, rate, times.next_midnight as int, now);
            &&& budget is None ==> holds(text, painted(DIM, "day"@) + "  "@ + usd_text(total))
            &&& budget matches Some(b) ==> holds(
                text,
                usd_text(total) + " of "@ + usd_text(b as int),
            ) && holds(
                text,
                painted(
                    fill_color(share_of_budget(total, b as int)),
                    pct_field(Some(share_of_budget(total, b as int))),
                ),
            )
            &&& spend_body(rate) is Some ==> holds(text, painted(DIM, spend_body(rate)->0))
            &&& warn is Some ==> holds(text, painted(RED, warn->0))
        }),
{
    let none = Seq::<char>::empty();
    let text = day_text(total, budget, rate, columns, times, now);
    let warn = budget_warning(total, budget, rate, times.next_midnight as int, now);
    let body = spend_body(rate);
    let colored = suffix_colored(body, warn);
    let rollover = rollover_in(times.next_midnight as int, times.rollover, now);
    lemma_suffix_parts(body, warn);
    match budget {
        Some(b) => {
            let sum = usd_text(total) + " of "@ + usd_text(b as int);
            let rt = day_right(total, b as int, rollover);
            assert(rt =~= sum + (" · "@ + rollover));
            lemma_holds(none, sum, " · "@ + rollover);
            lemma_holds(DIM@, rt, RESET@);
            lemma_holds_through(painted(DIM, rt), rt, sum);
            let width = cells_left(
                width_of(columns) as int,
                3,
                right_text(rt, suffix_plain(body, warn)).len() as int,
            ) as nat;
            let pct = budget_pct(total as nat, b as nat);
            let num = Some(Num::Finite(clamp_i64(pct.cut()) as i64));
            let share = Some(pct.min(held_whole(100)));
            let before = painted(DIM, "day"@) + "  "@ + framed_share_text(
                share,
                bar_color(num),
                width,
            ) + " "@ + painted(band(num), pct_field(num)) + "  "@;
            let head = before + painted(DIM, rt);
            assert(text == head + tail_text(colored));
            lemma_tail(head, colored);
            lemma_holds(before, painted(DIM, rt), none);
            lemma_holds_through(head, painted(DIM, rt), sum);
            lemma_holds_through(text, head, sum);
            let figure = painted(band(num), pct_field(num));
            let start = painted(DIM, "day"@) + "  "@ + framed_share_text(
                share,
                bar_color(num),
                width,
            ) + " "@;
            lemma_holds(start, figure, "  "@ + painted(DIM, rt));
            assert(head =~= start + figure + ("  "@ + painted(DIM, rt)));
            lemma_holds_through(text, head, figure);
        },
        None => {
            let sum = painted(DIM, "day"@) + "  "@ + usd_text(total);
            let head = sum + "  "@ + painted(DIM, rollover);
            assert(text == head + tail_text(colored));
            lemma_tail(head, colored);
            lemma_holds(none, sum, "  "@ + painted(DIM, rollover));
            assert(head =~= sum + ("  "@ + painted(DIM, rollover)));
            lemma_holds_through(text, head, sum);
        },
    }
    if body is Some {
        lemma_holds_through(text, colored, painted(DIM, body->0));
    }
    if warn is Some {
        lemma_holds_through(text, colored, painted(RED, warn->0));
    }
}

/// With an API key, a session that is not held shows its own cost, and what all sessions spent since
/// midnight, its own counter among them: against the budget where one is set, with the share of it in
/// the colour of how much that is. The line goes on with
/// the burn of the last two hours, where it is more than half a cent an hour, and says where the
/// budget is spent.
pub proof fn an_api_key_session_shows_its_dollars(
    t: Tree,
    now: i64,
    around: Surroundings,
    hist: Seq<Sample>,
    times: LocalTimes,
    usd: i64,
)
    requires
        mode_of(t) == Mode::ApiKey,
        held_for(hist, t, now as int) is None,
        finite_cost(t) == Some(usd),
        usd >= 0,
        keys_in(today_events(hist, times.midnight as int, rendered(t, usd), now as int)).len() > 0,
    ensures
        ({
            let text = render_text(t, now, around, hist, times);
            let total = clamp_i64(
                day_total(hist, times.midnight as int, rendered(t, usd), now as int),
            );
            let rate = day_rate_of(hist, rendered(t, usd), 7_200_000_000, now);
            &&& holds(text, usd_text(usd as int))
            &&& budget_in(around) is None ==> holds(
                text,
                painted(DIM, "day"@) + "  "@ + usd_text(total),
            )
            &&& budget_in(around) matches Some(b) ==> holds(
                text,
                usd_text(total) + " of "@ + usd_text(b as int),
            ) && (total >= b ==> holds(text, painted(RED, "⚠ over budget"@))) && holds(
                text,
                painted(
                    fill_color(share_of_budget(total, b as int)),
                    pct_field(Some(share_of_budget(total, b as int))),
                ),
            )
            &&& rate matches Some((all, warn)) ==> 5_000 < all <= i64::MAX ==> holds(
                text,
                painted(DIM, "↑"@ + usd_rate_text(all) + "/h"@),
            )
        }),
{
    let none = Seq::<char>::empty();
    let text = render_text(t, now, around, hist, times);
    let live = rendered(t, usd);
    assert(live_counter(t) == live);
    let total = clamp_i64(day_total(hist, times.midnight as int, live, now as int));
    let rate = day_rate_of(hist, live, 7_200_000_000, now);
    let budget = budget_in(around);
    let day = day_text(total, budget, shown_rate(rate), around.columns, times, now as int);
    let cost = usd_text(usd as int);
    assert(cost_part(Some(usd)) =~= seq![cost]);
    lemma_header_holds(t, Some(usd), *around.memory, cost);
    let header = header_text(t, Some(usd), *around.memory)->0;
    assert(text == header + "\n"@ + day);
    assert(text =~= header + ("\n"@ + day));
    lemma_holds(none, header, "\n"@ + day);
    lemma_holds_through(text, header, cost);
    lemma_holds(header + "\n"@, day, none);
    lemma_day_text_holds(total, budget, shown_rate(rate), around.columns, times, now as int);
    match budget {
        None => {
            lemma_holds_through(text, day, painted(DIM, "day"@) + "  "@ + usd_text(total));
        },
        Some(b) => {
            lemma_holds_through(text, day, usd_text(total) + " of "@ + usd_text(b as int));
            lemma_holds_through(
                text,
                day,
                painted(
                    fill_color(share_of_budget(total, b as int)),
                    pct_field(Some(share_of_budget(total, b as int))),
                ),
            );
            if total >= b {
                lemma_holds_through(text, day, painted(RED, "⚠ over budget"@));
            }
        },
    }
    match rate {
        Some((all, warn)) => {
            if 5_000 < all <= i64::MAX {
                lemma_holds_through(text, day, painted(DIM, "↑"@ + usd_rate_text(all) + "/h"@));
            }
        },
        None => {},
    }
}

/// A payload that shows no billing reads as waiting.
pub proof fn a_payload_without_billing_reads_as_waiting(
    t: Tree,
    now: i64,
    around: Surroundings,
    hist: Seq<Sample>,
    times: LocalTimes,
)
    requires
        mode_of(t) == Mode::Unknown,
    ensures
        render_text(t, now, around, hist, times) == painted(
            GRAY,
            "limits n/a (awaiting first API response)"@,
        ),
{
}

// ---------------------------------------------------------------------------------------
// Warnings
// ---------------------------------------------------------------------------------------

/// A window that is full, or that fills by no more than half a percent an hour, is not warned of,
/// nor is one without a percentage or a reset.
pub proof fn little_burn_is_not_warned_of(
    pct: Option<Num>,
    reset: Option<Num>,
    rate: int,
    now: int,
)
    requires
        rate <= 500_000 || pct is None || reset is None || pct->0.at_least(100_000_000),
    ensures
        cap_warning(pct, reset, rate, now) is None,
{
}

/// A window that has reset by now is not warned of.
pub proof fn a_window_that_has_reset_is_not_warned_of(
    pct: Option<Num>,
    reset: i64,
    rate: int,
    now: i64,
)
    requires
        reset <= now,
    ensures
        cap_warning(pct, Some(Num::Finite(reset)), rate, now as int) is None,
{
    lemma_no_gap(reset as int, now as int);
}

/// A budget is over exactly if today's spend has reached it. It is only expected to be hit before
/// midnight at a rate of more than a cent an hour, while the day lasts.
pub proof fn a_budget_is_over_once_it_is_reached(
    today: int,
    budget: int,
    rate: Option<DayRate>,
    next_midnight: int,
    now: int,
)
    ensures
        outcome(today, budget, rate, next_midnight, now) == BudgetOutcome::Over <==> today >= budget,
        outcome(today, budget, rate, next_midnight, now) is HitsBudget ==> (rate matches Some(r)
            && r.warn_per_hr > 10_000),
        i64::MIN <= now <= i64::MAX && clamp_i64(next_midnight * 1_000_000) <= now ==> !(outcome(
            today,
            budget,
            rate,
            next_midnight,
            now,
        ) is HitsBudget),
{
    if i64::MIN <= now <= i64::MAX && clamp_i64(next_midnight * 1_000_000) <= now {
        lemma_no_gap(clamp_i64(next_midnight * 1_000_000), now);
    }
}

/// The day line shows a burn of more than half a cent an hour, and no other.
pub proof fn an_idle_day_shows_no_burn(rate: Option<DayRate>)
    ensures
        rate matches Some(r) ==> r.per_hr > 5_000 ==> spend_body(rate) == Some(
            "↑"@ + usd_rate_text(r.per_hr as int) + "/h"@,
        ),
        (rate matches Some(r) ==> r.per_hr <= 5_000) ==> spend_body(rate) is None,
{
}

/// How long a session's windows have been missing is quoted up to a week, and only once some time
/// has passed.
pub proof fn a_quiet_time_is_quoted_up_to_a_week(quiet_secs: int)
    ensures
        0 < quiet_secs <= 604_800 ==> holds(quiet_message(quiet_secs), dur_text(quiet_secs)),
        quiet_secs <= 0 || quiet_secs > 604_800 ==> quiet_message(quiet_secs) == painted(
            GRAY,
            "limits n/a (none reported)"@,
        ),
{
    let a = GRAY@ + "limits n/a (none reported for "@;
    let b = ")"@ + RESET@;
    if 0 < quiet_secs <= 604_800 {
        lemma_holds(a, dur_text(quiet_secs), b);
        assert(quiet_message(quiet_secs) =~= a + dur_text(quiet_secs) + b);
    }
}

} // verus!
