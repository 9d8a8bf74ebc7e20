//! Assembles the status line from the stdin payload: header plus 5h/weekly bars on a
//! subscription, or header plus a real-$ "spent today" line on API-key billing.

use vstd::prelude::*;
use vstd::string::*;

use crate::bars::{
    bar_color, color_of_bar, framed, framed_share, framed_share_text, share_opt,
};
use crate::burn::{
    burn_body, burn_suffix, cap_warning, history_rate, rate_window, segment_of, segment_rate, Win,
};
use crate::double::{
    held_micros, held_pct, held_whole, lemma_cut_is_natural, pct_of, whole_gap, whole_gap_of,
    Double, Held,
};
use crate::fmt::{
    band, color_for, dur_text, fmt_clock, fmt_dur, fmt_tokens, fmt_usd, local_clock_text, painted,
    push_painted, suffix_colored, suffix_plain, text_opt, tokens_text, usd_text, Hms, DIM, GRAY,
};
use crate::history::{
    costs_in, hold_of, session_key, windows_in, Sample, SubSessions, RATE_WINDOW_SECS,
};
use crate::json::{
    f64_at, keys_of, mode_of, nested, nested_tree, number_at, payload_mode, str_at, text_at, Json,
    Mode, Tree,
};
use crate::localtime::{answers_as, day_bounds, day_on, spans_day};
use crate::log::{
    finite_cost, finite_cost_of, limit_pct, limit_reset, payload_key, window_pct_of,
    window_reset_of,
};
use crate::memory::{
    color_of_level, header_segment, int_spec, intuition_header_segment, level_color, measure,
    measure_intuition, mem_spec, segment_text, stat_opt, ProjectMemory,
};
use crate::num::{
    clamp_i64, magnitude_of, magnitude_value, micros_at, natural_of, read_u64, saturate, secs_of,
    trunc_div, trunc_units, Micros, Num, UNIT,
};
use crate::series::keys_in;
use crate::spend::{
    budget_of, budget_warning, counter_of, daily_budget_from, day_rate, day_rate_of, day_spend,
    day_total, day_total_is_not_negative, spend_body, spend_suffix, today_events, whole_secs,
    DayRate, Live, LiveCounter,
};
use crate::text::{dec_int, join, joined, push_int, texts, trim_chars, trimmed};

verus! {

pub const MIN_BAR: i64 = 8;

pub const MAX_BAR: i64 = 150;

pub const SAFE_MARGIN: i64 = 8;

pub const FALLBACK_COLS: usize = 80;

/// Per-line fixed overhead around the bar, excluding the label: 2sp + frame(1) + frame(1) +
/// sp(1) + pct(3) + 2sp.
pub const LINE_OVERHEAD: i64 = 10;

/// Where the context size turns amber, in millionths of a token.
pub const CTX_AMBER_TOK: i64 = 200_000_000_000;

/// Where the context size turns red.
pub const CTX_RED_TOK: i64 = 500_000_000_000;

/// What the line depends on besides the payload, the clock and the history.
pub struct Surroundings<'a> {
    /// The terminal width, as the environment states it.
    pub columns: Option<&'a str>,
    /// The daily budget, as the environment states it.
    pub budget: Option<&'a str>,
    pub memory: &'a ProjectMemory,
}

/// The local times that the line shows, and the bounds of the local day.
pub struct LocalTimes {
    pub five_hour: Option<Hms>,
    pub seven_day: Option<Hms>,
    pub midnight: i64,
    pub next_midnight: i64,
    pub rollover: Option<Hms>,
}

// ---------------------------------------------------------------------------------------
// Widths
// ---------------------------------------------------------------------------------------

/// The terminal width: a positive number of columns, else the fallback.
pub open spec fn width_of(columns: Option<&str>) -> usize {
    match columns {
        None => FALLBACK_COLS,
        Some(s) => match natural_of(trimmed(s@)) {
            Some(n) if 0 < n <= usize::MAX && n <= u64::MAX => n as usize,
            _ => FALLBACK_COLS,
        },
    }
}

pub fn term_width(columns: Option<&str>) -> (w: usize)
    ensures
        w == width_of(columns),
{
    match columns {
        None => FALLBACK_COLS,
        Some(s) => match read_u64(trim_chars(s).as_slice()) {
            Some(n) => if 0 < n && n <= usize::MAX as u64 {
                n as usize
            } else {
                FALLBACK_COLS
            },
            None => FALLBACK_COLS,
        },
    }
}

/// The cells left for the bar, held between its least and its greatest width.
pub open spec fn cells_left(width: int, label_len: int, max_right: int) -> usize {
    let avail = width - SAFE_MARGIN - (LINE_OVERHEAD + label_len) - max_right;
    if avail < MIN_BAR {
        MIN_BAR as usize
    } else if avail > MAX_BAR {
        MAX_BAR as usize
    } else {
        avail as usize
    }
}

/// Bar cells available given the label width and the longest right-hand text.
pub fn bar_width(columns: Option<&str>, label_len: usize, max_right: usize) -> (w: usize)
    ensures
        w == cells_left(width_of(columns) as int, label_len as int, max_right as int),
        MIN_BAR <= w <= MAX_BAR,
{
    let width = term_width(columns);
    let avail: i128 = width as i128 - SAFE_MARGIN as i128 - (LINE_OVERHEAD as i128
        + label_len as i128) - max_right as i128;
    if avail < MIN_BAR as i128 {
        MIN_BAR as usize
    } else if avail > MAX_BAR as i128 {
        MAX_BAR as usize
    } else {
        avail as usize
    }
}

/// A bar grows to fill the terminal: beside it there is room for the label, the text on the
/// right and the margin, and below the greatest width no column is left over.
pub proof fn a_bar_grows_to_fill_the_terminal(width: int, label_len: int, max_right: int)
    requires
        SAFE_MARGIN + LINE_OVERHEAD + label_len + MIN_BAR + max_right <= width,
    ensures
        ({
            let cells = cells_left(width, label_len, max_right);
            let taken = SAFE_MARGIN + LINE_OVERHEAD + label_len + cells + max_right;
            &&& taken <= width
            &&& cells < MAX_BAR ==> taken == width
        }),
{
}

// ---------------------------------------------------------------------------------------
// The header
// ---------------------------------------------------------------------------------------

pub open spec fn ctx_level(abs_tok: Option<Num>, pct: Option<Num>) -> u8 {
    if (abs_tok matches Some(t) && t.at_least(CTX_RED_TOK as int)) || (pct matches Some(p)
        && p.at_least(90_000_000)) {
        2
    } else if (abs_tok matches Some(t) && t.at_least(CTX_AMBER_TOK as int)) || (pct matches Some(p)
        && p.at_least(70_000_000)) {
        1
    } else {
        0
    }
}

/// Colour the ctx value by the more severe of absolute size (cost) and % full (window risk).
pub fn ctx_color(abs_tok: Option<Num>, pct: Option<Num>) -> (c: &'static str)
    ensures
        c == level_color(ctx_level(abs_tok, pct)),
{
    let mut level: u8 = 0;
    if let Some(t) = abs_tok {
        if t.is_at_least(CTX_RED_TOK) {
            level = 2;
        } else if t.is_at_least(CTX_AMBER_TOK) {
            level = 1;
        }
    }
    if let Some(p) = pct {
        if p.is_at_least(90_000_000) {
            level = 2;
        } else if p.is_at_least(70_000_000) && level < 1 {
            level = 1;
        }
    }
    color_of_level(level)
}

/// `pct` percent of `size`, both in millionths and zero or more, as a double.
pub open spec fn held_part(pct: nat, size: nat) -> Held {
    held_micros(pct).over(held_whole(100)).times(held_micros(size))
}

/// A double in millionths, what is finer dropped. What is above zero stays so.
pub open spec fn cut_above_zero(x: Held) -> int {
    if x.digits > 0 && x.cut() < 1 {
        1
    } else {
        clamp_i64(x.cut())
    }
}

/// `pct` percent of `size`. As with any product, one of the infinities with zero is no number.
pub open spec fn part_of(pct: Num, size: Num) -> Num {
    match (pct, size) {
        (Num::Finite(p), Num::Finite(s)) => {
            let part = cut_above_zero(held_part(magnitude_of(p as int), magnitude_of(s as int)));
            Num::Finite(
                (if (p < 0) == (s < 0) {
                    part
                } else {
                    -part
                }) as i64,
            )
        },
        _ => if pct == Num::NaN || size == Num::NaN || pct == Num::Finite(0) || size
            == Num::Finite(0) {
            Num::NaN
        } else if pct.below(0) == size.below(0) {
            Num::PosInf
        } else {
            Num::NegInf
        },
    }
}

fn portion(pct: Num, size: Num) -> (r: Num)
    ensures
        r == part_of(pct, size),
{
    match (pct, size) {
        (Num::Finite(p), Num::Finite(s)) => {
            let x = Double::of_micros(magnitude_value(p as i128) as u64).over(
                Double::of_whole(100),
            ).times(Double::of_micros(magnitude_value(s as i128) as u64));
            proof {
                lemma_cut_is_natural(x@);
            }
            let cut: i64 = x.cut();
            let part: i64 = if x.digits > 0 && cut < 1 {
                1
            } else {
                cut
            };
            Num::Finite(
                if (p < 0) == (s < 0) {
                    part
                } else {
                    -part
                },
            )
        },
        _ => {
            if pct == Num::NaN || size == Num::NaN || pct == Num::Finite(0) || size == Num::Finite(
                0,
            ) {
                Num::NaN
            } else if pct.is_below(0) == size.is_below(0) {
                Num::PosInf
            } else {
                Num::NegInf
            }
        },
    }
}

/// The tokens in the context window: as the payload counts them, or as its share of the
/// window's size.
pub open spec fn context_tokens(t: Tree, pct: Num) -> Option<Num> {
    match number_at(t, seq!["context_window"@, "total_input_tokens"@]) {
        Some(n) => Some(n),
        None => match number_at(t, seq!["context_window"@, "context_window_size"@]) {
            Some(size) => Some(part_of(pct, size)),
            None => None,
        },
    }
}

pub open spec fn context_value(pct: Num, tokens: Option<Num>) -> Seq<char> {
    dec_int(pct.rounded()) + "%"@ + (match tokens {
        Some(t) if t.above(0) => " ("@ + tokens_text(t) + ")"@,
        _ => Seq::empty(),
    })
}

pub open spec fn model_part(t: Tree) -> Seq<Seq<char>> {
    match text_at(t, seq!["model"@, "display_name"@]) {
        Some(model) => seq![painted(DIM, model)],
        None => Seq::empty(),
    }
}

pub open spec fn effort_part(t: Tree) -> Seq<Seq<char>> {
    match text_at(t, seq!["effort"@, "level"@]) {
        Some(level) => seq![painted(DIM, "effort: "@ + level)],
        None => Seq::empty(),
    }
}

pub open spec fn context_part(t: Tree) -> Seq<Seq<char>> {
    match number_at(t, seq!["context_window"@, "used_percentage"@]) {
        Some(pct) => seq![
            painted(DIM, "ctx "@) + painted(
                level_color(ctx_level(context_tokens(t, pct), Some(pct))),
                context_value(pct, context_tokens(t, pct)),
            ),
        ],
        None => Seq::empty(),
    }
}

pub open spec fn cost_part(session_usd: Option<i64>) -> Seq<Seq<char>> {
    match session_usd {
        Some(u) => seq![usd_text(u as int)],
        None => Seq::empty(),
    }
}

/// `mem` then `int`, matching the direction of flow: sessions write to MEMORY.md as an inbox
/// and `/dream` drains it into the curated intuition.md.
pub open spec fn memory_parts(memory: ProjectMemory) -> Seq<Seq<char>> {
    (match stat_opt(memory.index) {
        Some(stat) => seq![segment_text(mem_spec(), stat)],
        None => Seq::empty(),
    }) + (match stat_opt(memory.intuition) {
        Some(stat) => seq![segment_text(int_spec(), stat)],
        None => Seq::empty(),
    })
}

/// The parts of the header, each shown only if the payload provides it.
pub open spec fn header_parts(t: Tree, session_usd: Option<i64>, memory: ProjectMemory) -> Seq<
    Seq<char>,
> {
    model_part(t) + effort_part(t) + context_part(t) + cost_part(session_usd) + memory_parts(memory)
}

pub open spec fn header_text(t: Tree, session_usd: Option<i64>, memory: ProjectMemory) -> Option<
    Seq<char>,
> {
    let parts = header_parts(t, session_usd, memory);
    if parts.len() == 0 {
        None
    } else {
        Some(joined(parts, painted(DIM, " · "@)))
    }
}

fn context_segment(input: &Json) -> (r: Option<String>)
    ensures
        match r {
            Some(s) => context_part(input@) == seq![s@],
            None => context_part(input@).len() == 0,
        },
{
    let used: [&str; 2] = ["context_window", "used_percentage"];
    assert(keys_of(used@) =~= seq!["context_window"@, "used_percentage"@]);
    let pct = match f64_at(input, &used) {
        Some(p) => p,
        None => {
            return None;
        },
    };
    let total: [&str; 2] = ["context_window", "total_input_tokens"];
    assert(keys_of(total@) =~= seq!["context_window"@, "total_input_tokens"@]);
    let tokens: Option<Num> = match f64_at(input, &total) {
        Some(n) => Some(n),
        None => {
            let whole: [&str; 2] = ["context_window", "context_window_size"];
            assert(keys_of(whole@) =~= seq!["context_window"@, "context_window_size"@]);
            match f64_at(input, &whole) {
                Some(size) => Some(portion(pct, size)),
                None => None,
            }
        },
    };
    let mut val = String::new();
    push_int(&mut val, pct.round() as i128);
    val.append("%");
    if let Some(t) = tokens {
        if t.is_above(0) {
            val.append(" (");
            val.append(fmt_tokens(t).as_str());
            val.append(")");
        }
    }
    assert(val@ =~= context_value(pct, tokens));
    let mut s = String::new();
    push_painted(&mut s, DIM, "ctx ");
    push_painted(&mut s, ctx_color(tokens, Some(pct)), val.as_str());
    assert(s@ =~= context_part(input@)[0]);
    Some(s)
}

proof fn lemma_push_text(v: Seq<String>, s: String)
    ensures
        texts(v.push(s)) == texts(v) + seq![s@],
{
    assert(texts(v.push(s)) =~= texts(v) + seq![s@]);
}

/// Compact `Model · effort: level · ctx N% (size)` header; `None` if all absent.
/// `session_usd` (API-key mode only) appends the session's real billed cost.
pub fn header(input: &Json, session_usd: Option<Micros>, memory: &ProjectMemory) -> (r: Option<
    String,
>)
    ensures
        text_opt(r) == header_text(input@, session_usd, *memory),
{
    let mut parts: Vec<String> = Vec::new();
    assert(texts(parts@) =~= Seq::<Seq<char>>::empty());
    let model_path: [&str; 2] = ["model", "display_name"];
    assert(keys_of(model_path@) =~= seq!["model"@, "display_name"@]);
    if let Some(model) = str_at(input, &model_path) {
        let mut s = String::new();
        push_painted(&mut s, DIM, model);
        assert(s@ =~= painted(DIM, model@));
        proof {
            lemma_push_text(parts@, s);
        }
        parts.push(s);
    }
    assert(texts(parts@) =~= model_part(input@));
    let effort_path: [&str; 2] = ["effort", "level"];
    assert(keys_of(effort_path@) =~= seq!["effort"@, "level"@]);
    if let Some(level) = str_at(input, &effort_path) {
        let mut body = "effort: ".to_owned();
        body.append(level);
        let mut s = String::new();
        push_painted(&mut s, DIM, body.as_str());
        assert(s@ =~= painted(DIM, "effort: "@ + level@));
        proof {
            lemma_push_text(parts@, s);
        }
        parts.push(s);
    }
    assert(texts(parts@) =~= model_part(input@) + effort_part(input@));
    if let Some(s) = context_segment(input) {
        proof {
            lemma_push_text(parts@, s);
        }
        parts.push(s);
    }
    assert(texts(parts@) =~= model_part(input@) + effort_part(input@) + context_part(input@));
    if let Some(u) = session_usd {
        let s = fmt_usd(u);
        proof {
            lemma_push_text(parts@, s);
        }
        parts.push(s);
    }
    let ghost so_far = model_part(input@) + effort_part(input@) + context_part(input@) + cost_part(
        session_usd,
    );
    assert(texts(parts@) =~= so_far);
    if let Some(stat) = measure(memory) {
        let s = header_segment(&stat);
        proof {
            lemma_push_text(parts@, s);
        }
        parts.push(s);
    }
    if let Some(stat) = measure_intuition(memory) {
        let s = intuition_header_segment(&stat);
        proof {
            lemma_push_text(parts@, s);
        }
        parts.push(s);
    }
    assert(texts(parts@) =~= header_parts(input@, session_usd, *memory));
    if parts.len() == 0 {
        None
    } else {
        let mut sep = String::new();
        push_painted(&mut sep, DIM, " · ");
        assert(sep@ =~= painted(DIM, " · "@));
        Some(join(&parts, sep.as_str()))
    }
}

// ---------------------------------------------------------------------------------------
// One line
// ---------------------------------------------------------------------------------------

/// Whole seconds from `now` to a moment, the fraction dropped; the ends of the range for the
/// infinities and zero for what is not a number.
pub open spec fn secs_until(e: Num, now: int) -> int {
    match e {
        Num::Finite(v) => whole_gap(v as int, now),
        Num::PosInf => i64::MAX as int,
        Num::NegInf => i64::MIN as int,
        Num::NaN => 0,
    }
}

pub open spec fn reset_text_of(reset: Option<Num>, at: Option<Hms>, now: int) -> Seq<char> {
    match reset {
        None => "—"@,
        Some(e) => match local_clock_text(at) {
            Some(clock) => dur_text(secs_until(e, now)) + " @ "@ + clock,
            None => dur_text(secs_until(e, now)),
        },
    }
}

/// Whole seconds from `now` to a moment.
pub fn until(e: Num, now: Micros) -> (r: i64)
    ensures
        r == secs_until(e, now as int),
{
    match e {
        Num::Finite(v) => whole_gap_of(v, now),
        Num::PosInf => i64::MAX,
        Num::NegInf => i64::MIN,
        Num::NaN => 0,
    }
}

/// The dim reset readout: the time-to-reset duration, plus the absolute local clock it lands
/// at (e.g. `6d3h @ 12am (Wed)`). The clock is dropped only if local time can't be resolved.
pub fn reset_text(reset: Option<Num>, at: Option<Hms>, now: Micros) -> (s: String)
    ensures
        s@ == reset_text_of(reset, at, now as int),
{
    match reset {
        None => "—".to_owned(),
        Some(e) => {
            let mut s = fmt_dur(until(e, now));
            if let Some(clock) = fmt_clock(at) {
                s.append(" @ ");
                s.append(clock.as_str());
                assert(s@ =~= reset_text_of(reset, at, now as int));
            }
            s
        },
    }
}

/// A text that is not empty, padded on the left to two characters.
pub open spec fn padded2(t: Seq<char>) -> Seq<char> {
    if t.len() < 2 {
        " "@ + t
    } else {
        t
    }
}

pub open spec fn pct_field(pct: Option<Num>) -> Seq<char> {
    match pct {
        Some(p) => padded2(dec_int(p.rounded())) + "%"@,
        None => "--%"@,
    }
}

pub open spec fn tail_text(suffix: Seq<char>) -> Seq<char> {
    if suffix.len() == 0 {
        Seq::empty()
    } else {
        "  "@ + suffix
    }
}

/// A line whose bar shows `share`.
pub open spec fn share_line_text(
    label: Seq<char>,
    pct: Option<Num>,
    share: Option<Held>,
    width: nat,
    rt: Seq<char>,
    suffix: Seq<char>,
) -> Seq<char> {
    painted(DIM, label) + "  "@ + framed_share_text(share, bar_color(pct), width) + " "@ + painted(
        band(pct),
        pct_field(pct),
    ) + "  "@ + painted(DIM, rt) + tail_text(suffix)
}

pub open spec fn line_text(
    label: Seq<char>,
    pct: Option<Num>,
    width: nat,
    rt: Seq<char>,
    suffix: Seq<char>,
) -> Seq<char> {
    share_line_text(label, pct, share_opt(pct), width, rt, suffix)
}

fn pct_text(pct: Option<Num>) -> (s: String)
    ensures
        s@ == pct_field(pct),
{
    match pct {
        None => "--%".to_owned(),
        Some(p) => {
            let mut digits = String::new();
            push_int(&mut digits, p.round() as i128);
            assert(digits@ =~= dec_int(p.rounded()));
            let n = digits.as_str().unicode_len();
            let mut s = String::new();
            if n < 2 {
                s.append(" ");
            }
            s.append(digits.as_str());
            s.append("%");
            assert(s@ =~= pct_field(pct));
            s
        },
    }
}

fn push_tail(s: &mut String, suffix: &str)
    ensures
        final(s)@ == old(s)@ + tail_text(suffix@),
{
    if suffix.unicode_len() > 0 {
        s.append("  ");
        s.append(suffix);
    }
    assert(s@ =~= old(s)@ + tail_text(suffix@));
}

/// The parts of a line around its bar.
fn assemble_line(label: &str, pct: Option<Num>, bar: &str, rt: &str, suffix_colored: &str) -> (s:
    String)
    ensures
        s@ == painted(DIM, label@) + "  "@ + bar@ + " "@ + painted(band(pct), pct_field(pct))
            + "  "@ + painted(DIM, rt@) + tail_text(suffix_colored@),
{
    let mut s = String::new();
    push_painted(&mut s, DIM, label);
    s.append("  ");
    s.append(bar);
    s.append(" ");
    push_painted(&mut s, color_for(pct), pct_text(pct).as_str());
    s.append("  ");
    push_painted(&mut s, DIM, rt);
    push_tail(&mut s, suffix_colored);
    assert(s@ =~= painted(DIM, label@) + "  "@ + bar@ + " "@ + painted(band(pct), pct_field(pct))
        + "  "@ + painted(DIM, rt@) + tail_text(suffix_colored@));
    s
}

pub fn render_line(
    label: &str,
    pct: Option<Num>,
    bar_width: usize,
    rt: &str,
    suffix_colored: &str,
) -> (s: String)
    ensures
        s@ == line_text(label@, pct, bar_width as nat, rt@, suffix_colored@),
{
    let bar = framed(pct, bar_width);
    assemble_line(label, pct, bar.as_str(), rt, suffix_colored)
}

/// A line for a percentage that is a double: the bar shows it as it is, the rest in millionths.
fn render_share_line(
    label: &str,
    pct: Option<Num>,
    share: Double,
    bar_width: usize,
    rt: &str,
    suffix_colored: &str,
) -> (s: String)
    requires
        share.wf(),
        -2_000 <= share.exp <= 2_000,
    ensures
        s@ == share_line_text(
            label@,
            pct,
            Some(share@),
            bar_width as nat,
            rt@,
            suffix_colored@,
        ),
{
    let bar = framed_share(Some(share), color_of_bar(pct), bar_width);
    assemble_line(label, pct, bar.as_str(), rt, suffix_colored)
}

pub open spec fn right_text(rt: Seq<char>, suffix: Seq<char>) -> Seq<char> {
    rt + tail_text(suffix)
}

/// Plain (uncoloured) right-hand text, for width measurement only.
pub fn join_right(rt: &str, suffix_plain: &str) -> (s: String)
    ensures
        s@ == right_text(rt@, suffix_plain@),
{
    let mut s = rt.to_owned();
    push_tail(&mut s, suffix_plain);
    s
}

// ---------------------------------------------------------------------------------------
// The whole
// ---------------------------------------------------------------------------------------

pub open spec fn limits_na_text() -> Seq<char> {
    painted(GRAY, "limits n/a (awaiting first API response)"@)
}

pub fn limits_na() -> (s: String)
    ensures
        s@ == limits_na_text(),
{
    let mut s = String::new();
    push_painted(&mut s, GRAY, "limits n/a (awaiting first API response)");
    assert(s@ =~= limits_na_text());
    s
}

/// The longest quiet time that is quoted: the weekly window.
pub const QUOTABLE: i64 = 604_800;

pub open spec fn quiet_message(quiet_secs: int) -> Seq<char> {
    painted(
        GRAY,
        if 0 < quiet_secs <= QUOTABLE {
            "limits n/a (none reported for "@ + dur_text(quiet_secs) + ")"@
        } else {
            "limits n/a (none reported)"@
        },
    )
}

/// A line under the header, or alone where there is no header.
pub open spec fn under_header(header: Option<Seq<char>>, line: Seq<char>) -> Seq<char> {
    match header {
        Some(h) => h + "\n"@ + line,
        None => line,
    }
}

pub open spec fn held_text(t: Tree, quiet_secs: int, memory: ProjectMemory) -> Seq<char> {
    under_header(header_text(t, None, memory), quiet_message(quiet_secs))
}

/// A line under the header, or alone where there is no header.
fn with_header(h: Option<String>, line: &str) -> (s: String)
    ensures
        s@ == under_header(text_opt(h), line@),
{
    match h {
        Some(t) => {
            let mut s = t;
            s.append("\n");
            s.append(line);
            s
        },
        None => line.to_owned(),
    }
}

/// The session *has* reported subscription windows and they have stopped arriving, with the
/// switch to API-key billing not yet proven. Never-seen and seen-and-lost are different
/// states and must read differently: after hours of responses, "awaiting first API
/// response" is simply false. The header is kept because this state can last as long as the
/// hold — but the cost stays out of it, since an unproven counter may still be a
/// subscriber's shadow estimate rather than money.
///
/// A duration is only quoted when it can be true: a clock that stepped backwards (or a
/// sample stored under a wrong one) yields a negative or absurd figure. The ceiling is the
/// weekly window rather than the retention age — a subscription-only history is pruned by
/// count alone, so a session resumed a couple of days later reports a long but honest quiet.
pub fn limits_held(input: &Json, quiet_secs: i64, memory: &ProjectMemory) -> (s: String)
    ensures
        s@ == held_text(input@, quiet_secs as int, *memory),
{
    let mut msg = String::new();
    if quiet_secs > 0 && quiet_secs <= QUOTABLE {
        msg.append("limits n/a (none reported for ");
        msg.append(fmt_dur(quiet_secs).as_str());
        msg.append(")");
        assert(msg@ =~= "limits n/a (none reported for "@ + dur_text(quiet_secs as int) + ")"@);
    } else {
        msg.append("limits n/a (none reported)");
        assert(msg@ =~= "limits n/a (none reported)"@);
    }
    let mut line = String::new();
    push_painted(&mut line, GRAY, msg.as_str());
    assert(line@ =~= quiet_message(quiet_secs as int));
    with_header(header(input, None, memory), line.as_str())
}

/// The readout beside one window's bar: plain and coloured.
pub open spec fn window_suffix(hist: Seq<Sample>, t: Tree, name: Seq<char>, win: Win, now: int) -> (
    Seq<char>,
    Seq<char>,
) {
    let pct = limit_pct(t, name);
    let reset = limit_reset(t, name);
    match segment_rate(segment_of(hist, win, reset), rate_window(), now) {
        None => (Seq::empty(), Seq::empty()),
        Some(r) => (
            suffix_plain(Some(burn_body(r)), cap_warning(pct, reset, r, now)),
            suffix_colored(Some(burn_body(r)), cap_warning(pct, reset, r, now)),
        ),
    }
}

pub open spec fn longer(a: nat, b: nat) -> nat {
    if a > b {
        a
    } else {
        b
    }
}

/// The two bars, one under the other and of one width.
pub open spec fn bars_text(
    t: Tree,
    now: int,
    columns: Option<&str>,
    hist: Seq<Sample>,
    times: LocalTimes,
) -> Seq<char> {
    let five = window_suffix(hist, t, "five_hour"@, Win::FiveHour, now);
    let week = window_suffix(hist, t, "seven_day"@, Win::SevenDay, now);
    let rt5 = reset_text_of(limit_reset(t, "five_hour"@), times.five_hour, now);
    let rt7 = reset_text_of(limit_reset(t, "seven_day"@), times.seven_day, now);
    let width = cells_left(
        width_of(columns) as int,
        2,
        longer(right_text(rt5, five.0).len(), right_text(rt7, week.0).len()) as int,
    ) as nat;
    line_text("5h"@, limit_pct(t, "five_hour"@), width, rt5, five.1) + "\n"@ + line_text(
        "wk"@,
        limit_pct(t, "seven_day"@),
        width,
        rt7,
        week.1,
    )
}

pub open spec fn subscription_text(
    t: Tree,
    now: int,
    around: Surroundings,
    hist: Seq<Sample>,
    times: LocalTimes,
) -> Seq<char> {
    if nested_tree(t, seq!["rate_limits"@]) is None {
        limits_na_text()
    } else {
        under_header(
            header_text(t, None, *around.memory),
            bars_text(t, now, around.columns, hist, times),
        )
    }
}

fn suffix_for(hist: &[Sample], input: &Json, name: &str, win: Win, now: Micros) -> (r: (
    String,
    String,
))
    ensures
        r.0@ == window_suffix(hist@, input@, name@, win, now as int).0,
        r.1@ == window_suffix(hist@, input@, name@, win, now as int).1,
{
    let pct = window_pct_of(input, name);
    let reset = window_reset_of(input, name);
    burn_suffix(pct, reset, history_rate(hist, win, reset, now), now)
}

fn bars(
    input: &Json,
    now: Micros,
    columns: Option<&str>,
    hist: &[Sample],
    times: &LocalTimes,
) -> (s: String)
    ensures
        s@ == bars_text(input@, now as int, columns, hist@, *times),
{
    let five_pct = window_pct_of(input, "five_hour");
    let week_pct = window_pct_of(input, "seven_day");
    let (five_sp, five_sc) = suffix_for(hist, input, "five_hour", Win::FiveHour, now);
    let (week_sp, week_sc) = suffix_for(hist, input, "seven_day", Win::SevenDay, now);
    let rt5 = reset_text(window_reset_of(input, "five_hour"), times.five_hour, now);
    let rt7 = reset_text(window_reset_of(input, "seven_day"), times.seven_day, now);
    let right5 = join_right(rt5.as_str(), five_sp.as_str());
    let right7 = join_right(rt7.as_str(), week_sp.as_str());
    let n5 = right5.as_str().unicode_len();
    let n7 = right7.as_str().unicode_len();
    let max_right = if n5 > n7 {
        n5
    } else {
        n7
    };
    let width = bar_width(columns, 2, max_right);
    let mut s = render_line("5h", five_pct, width, rt5.as_str(), five_sc.as_str());
    s.append("\n");
    s.append(render_line("wk", week_pct, width, rt7.as_str(), week_sc.as_str()).as_str());
    s
}

/// Subscription (Pro/Max): the account-wide 5-hour and weekly bars.
pub fn render_subscription(
    input: &Json,
    now: Micros,
    around: &Surroundings,
    hist: &[Sample],
    times: &LocalTimes,
) -> (s: String)
    ensures
        s@ == subscription_text(input@, now as int, *around, hist@, *times),
{
    // `payload_mode` guarantees a non-empty rate_limits object here, but that invariant lives
    // in another module — degrade like every other missing-data path rather than trusting it.
    let path: [&str; 1] = ["rate_limits"];
    assert(keys_of(path@) =~= seq!["rate_limits"@]);
    if nested(input, &path).is_none() {
        return limits_na();
    }
    let lines = bars(input, now, around.columns, hist, times);
    with_header(header(input, None, around.memory), lines.as_str())
}

/// The session's cost, if the payload states a finite one that is not negative.
pub open spec fn shown_cost(t: Tree) -> Option<i64> {
    match finite_cost(t) {
        Some(u) if u >= 0 => Some(u),
        _ => None,
    }
}

/// How long the windows of a held session have been missing.
pub open spec fn held_for(hist: Seq<Sample>, t: Tree, now: int) -> Option<i64> {
    match payload_key(t) {
        Some(k) => hold_of(
            windows_in(hist, k),
            costs_in(hist, k),
            shown_cost(t),
            whole_secs(now) as int,
        ),
        None => None,
    }
}

pub open spec fn budget_in(around: Surroundings) -> Option<i64> {
    match around.budget {
        Some(v) => budget_of(v@),
        None => None,
    }
}

/// Spend as a percentage of the budget. It is clamped for display: spend isn't capped at the
/// budget, and an unbounded value would blow the 3-char field the width maths reserves.
pub open spec fn budget_pct(total: nat, budget: nat) -> Held {
    held_pct(total, budget).min(held_whole(999))
}

/// When the day rolls over: how long until then, and the local clock it lands at.
pub open spec fn rollover_in(next_midnight: int, at: Option<Hms>, now: int) -> Seq<char> {
    let dur = dur_text(clamp_i64(trunc_div(next_midnight * UNIT - now, UNIT as int)));
    match local_clock_text(at) {
        Some(clock) => dur + " @ "@ + clock,
        None => dur,
    }
}

/// The day's spend and its rollover, with the budget it stands against.
pub open spec fn day_right(total: int, budget: int, rollover: Seq<char>) -> Seq<char> {
    usd_text(total) + " of "@ + usd_text(budget) + " · "@ + rollover
}

/// The day line: a bar where a budget is set, plain dollars where none is.
pub open spec fn day_text(
    total: int,
    budget: Option<i64>,
    rate: Option<DayRate>,
    columns: Option<&str>,
    times: LocalTimes,
    now: int,
) -> Seq<char> {
    let warn = budget_warning(total, budget, rate, times.next_midnight as int, now);
    let plain = suffix_plain(spend_body(rate), warn);
    let colored = suffix_colored(spend_body(rate), warn);
    let rollover = rollover_in(times.next_midnight as int, times.rollover, now);
    match budget {
        Some(b) => {
            let rt = day_right(total, b as int, rollover);
            let width = cells_left(
                width_of(columns) as int,
                3,
                right_text(rt, plain).len() as int,
            ) as nat;
            let pct = budget_pct(total as nat, b as nat);
            share_line_text(
                "day"@,
                Some(Num::Finite(clamp_i64(pct.cut()) as i64)),
                Some(pct.min(held_whole(100))),
                width,
                rt,
                colored,
            )
        },
        None => painted(DIM, "day"@) + "  "@ + usd_text(total) + "  "@ + painted(DIM, rollover)
            + tail_text(colored),
    }
}

fn rollover_text(next_midnight: i64, at: Option<Hms>, now: Micros) -> (s: String)
    ensures
        s@ == rollover_in(next_midnight as int, at, now as int),
{
    let left: i128 = trunc_units(micros_at(next_midnight) - now as i128);
    let mut s = fmt_dur(saturate(left));
    if let Some(clock) = fmt_clock(at) {
        s.append(" @ ");
        s.append(clock.as_str());
    }
    s
}

fn day_line(
    total: Micros,
    budget: Option<Micros>,
    rate: Option<DayRate>,
    columns: Option<&str>,
    times: &LocalTimes,
    now: Micros,
) -> (s: String)
    requires
        total >= 0,
        budget matches Some(b) ==> b > 0,
    ensures
        s@ == day_text(total as int, budget, rate, columns, *times, now as int),
{
    let (sp, sc) = spend_suffix(total, budget, rate, times.next_midnight, now);
    let rollover = rollover_text(times.next_midnight, times.rollover, now);
    match budget {
        Some(b) => {
            let mut rt = fmt_usd(total);
            rt.append(" of ");
            rt.append(fmt_usd(b).as_str());
            rt.append(" · ");
            rt.append(rollover.as_str());
            let right = join_right(rt.as_str(), sp.as_str());
            let width = bar_width(columns, 3, right.as_str().unicode_len());
            let pct = pct_of(total, b).lesser(Double::of_whole(999));
            render_share_line(
                "day",
                Some(Num::Finite(pct.cut())),
                pct.lesser(Double::of_whole(100)),
                width,
                rt.as_str(),
                sc.as_str(),
            )
        },
        None => {
            let mut s = String::new();
            push_painted(&mut s, DIM, "day");
            assert(s@ =~= painted(DIM, "day"@));
            s.append("  ");
            s.append(fmt_usd(total).as_str());
            s.append("  ");
            push_painted(&mut s, DIM, rollover.as_str());
            push_tail(&mut s, sc.as_str());
            s
        },
    }
}

pub open spec fn live_counter(t: Tree) -> Option<LiveCounter> {
    match shown_cost(t) {
        Some(u) => Some(LiveCounter { key: payload_key(t), usd: u }),
        None => None,
    }
}

pub open spec fn shown_rate(r: Option<(int, int)>) -> Option<DayRate> {
    match r {
        Some((all, warn)) => Some(DayRate { per_hr: all as i64, warn_per_hr: warn as i64 }),
        None => None,
    }
}

pub open spec fn api_key_text(
    t: Tree,
    now: i64,
    around: Surroundings,
    hist: Seq<Sample>,
    times: LocalTimes,
) -> Seq<char> {
    let live = live_counter(t);
    let midnight = times.midnight as int;
    match held_for(hist, t, now as int) {
        Some(quiet) => held_text(t, quiet as int, *around.memory),
        None => if keys_in(today_events(hist, midnight, live, now as int)).len() == 0 {
            limits_na_text()
        } else {
            under_header(
                header_text(t, shown_cost(t), *around.memory),
                day_text(
                    clamp_i64(day_total(hist, midnight, live, now as int)),
                    budget_in(around),
                    shown_rate(day_rate_of(hist, live, rate_window(), now)),
                    around.columns,
                    times,
                    now as int,
                ),
            )
        },
    }
}

/// API-key (pay-as-you-go): no account allowance exists, so show real dollars instead —
/// the session's cost in the header and a machine-wide "spent today" line beneath, with a
/// $/h burn rate and the local-midnight rollover (plus a budget bar when one is set).
///
/// A resumed subscription session restores its cost before rate_limits repopulates and
/// so classifies as API-key for a moment; while the history still reads this session as a
/// subscription's, hold the honest waiting line rather than presenting shadow cost as spend.
/// The hold lifts once the session's own cost counter proves the switch is durable.
///
/// With no attributable session (e.g. a payload without a session id) day accounting is
/// impossible, and the waiting line is shown rather than an empty $0 one.
pub fn render_api_key_with(
    input: &Json,
    now: Micros,
    around: &Surroundings,
    hist: &[Sample],
    times: &LocalTimes,
) -> (s: String)
    ensures
        s@ == api_key_text(input@, now, *around, hist@, *times),
{
    let usd: Option<Micros> = match finite_cost_of(input) {
        Some(u) => if u >= 0 {
            Some(u)
        } else {
            None
        },
        None => None,
    };
    let path: [&str; 1] = ["session_id"];
    assert(keys_of(path@) =~= seq!["session_id"@]);
    let sid = str_at(input, &path);
    if let Some(k) = session_key(sid) {
        if let Some(quiet) = SubSessions::build(hist).hold(k.as_str(), usd, secs_of(now)) {
            return limits_held(input, quiet, around.memory);
        }
    }
    let live: Option<Live> = match usd {
        Some(u) => Some(Live { sid, usd: u }),
        None => None,
    };
    let live = live.as_ref();
    assert(counter_of(live) == live_counter(input@));
    let day = day_spend(hist, times.midnight, live, now);
    if day.sessions == 0 {
        return limits_na();
    }
    proof {
        day_total_is_not_negative(hist@, times.midnight as int, counter_of(live), now as int);
    }
    let rate = day_rate(hist, live, micros_at(RATE_WINDOW_SECS), now);
    assert(rate == shown_rate(day_rate_of(hist@, counter_of(live), rate_window(), now)));
    let budget: Option<Micros> = match around.budget {
        Some(v) => daily_budget_from(v),
        None => None,
    };
    let line = day_line(day.total, budget, rate, around.columns, times, now);
    with_header(header(input, usd, around.memory), line.as_str())
}

/// The status line, by the billing signal that the payload carries.
pub open spec fn render_text(
    t: Tree,
    now: i64,
    around: Surroundings,
    hist: Seq<Sample>,
    times: LocalTimes,
) -> Seq<char> {
    match mode_of(t) {
        Mode::Subscription => subscription_text(t, now as int, around, hist, times),
        Mode::ApiKey => api_key_text(t, now, around, hist, times),
        Mode::Unknown => limits_na_text(),
    }
}

/// Render the full status line (no trailing newline).
pub fn render(
    input: &Json,
    now: Micros,
    around: &Surroundings,
    hist: &[Sample],
    times: &LocalTimes,
) -> (s: String)
    ensures
        s@ == render_text(input@, now, *around, hist@, *times),
{
    match payload_mode(input) {
        Mode::Subscription => render_subscription(input, now, around, hist, times),
        Mode::ApiKey => render_api_key_with(input, now, around, hist, times),
        Mode::Unknown => limits_na(),
    }
}

/// The local clock at a reset, on the clock `c`.
pub open spec fn clock_at(reset: Option<Num>, c: spec_fn(i64) -> Option<Hms>) -> Option<Hms> {
    match reset {
        Some(e) => c(e.truncated() as i64),
        None => None,
    }
}

/// The local times that a payload's line shows, on the clock `c`.
pub open spec fn times_on(t: Tree, now: int, c: spec_fn(i64) -> Option<Hms>) -> LocalTimes {
    let (midnight, next_midnight) = day_on(now, c);
    LocalTimes {
        five_hour: clock_at(limit_reset(t, "five_hour"@), c),
        seven_day: clock_at(limit_reset(t, "seven_day"@), c),
        midnight,
        next_midnight,
        rollover: c(next_midnight),
    }
}

/// Whether each of `r` is an answer of `clock` to the moment that a payload's line shows.
pub open spec fn shows_times<F: Fn(i64) -> Option<Hms>>(
    clock: F,
    t: Tree,
    now: int,
    r: LocalTimes,
) -> bool {
    &&& answered(clock, limit_reset(t, "five_hour"@), r.five_hour)
    &&& answered(clock, limit_reset(t, "seven_day"@), r.seven_day)
    &&& spans_day(clock, now, (r.midnight, r.next_midnight))
    &&& call_ensures(clock, (r.next_midnight,), r.rollover)
}

/// Whether `a` is an answer of `clock` at a reset.
pub open spec fn answered<F: Fn(i64) -> Option<Hms>>(
    clock: F,
    reset: Option<Num>,
    a: Option<Hms>,
) -> bool {
    match reset {
        Some(e) => call_ensures(clock, (e.truncated() as i64,), a),
        None => a is None,
    }
}

/// Looks up the local times that a payload's line shows.
pub fn local_times<F: Fn(i64) -> Option<Hms>>(clock: &F, input: &Json, now: Micros) -> (r:
    LocalTimes)
    requires
        forall|t: i64| call_requires(*clock, (t,)),
    ensures
        forall|c: spec_fn(i64) -> Option<Hms>|
            answers_as(*clock, c) ==> r == #[trigger] times_on(input@, now as int, c),
        shows_times(*clock, input@, now as int, r),
{
    let five_hour = match window_reset_of(input, "five_hour") {
        Some(e) => clock(e.trunc()),
        None => None,
    };
    let seven_day = match window_reset_of(input, "seven_day") {
        Some(e) => clock(e.trunc()),
        None => None,
    };
    let (midnight, next_midnight) = day_bounds(clock, now);
    let rollover = clock(next_midnight);
    assert forall|c: spec_fn(i64) -> Option<Hms>| answers_as(*clock, c) implies (LocalTimes {
        five_hour,
        seven_day,
        midnight,
        next_midnight,
        rollover,
    }) == #[trigger] times_on(input@, now as int, c) by {
        assert((midnight, next_midnight) == day_on(now as int, c));
    }
    LocalTimes { five_hour, seven_day, midnight, next_midnight, rollover }
}

/// No cost that a held session's payload states reaches the line: with another cost, as long
/// as the session stays held for as long, the same text is shown.
pub proof fn a_held_session_shows_no_dollars(
    a: Tree,
    b: Tree,
    now: i64,
    around: Surroundings,
    hist: Seq<Sample>,
    times: LocalTimes,
)
    requires
        held_for(hist, a, now as int) is Some,
        held_for(hist, a, now as int) == held_for(hist, b, now as int),
        header_parts(a, None, *around.memory) == header_parts(b, None, *around.memory),
    ensures
        api_key_text(a, now, around, hist, times) == api_key_text(b, now, around, hist, times),
{
}

} // verus!
