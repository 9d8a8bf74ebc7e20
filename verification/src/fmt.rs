//! ANSI colours and the small set of value formatters shared by the status line and the
//! report.

use vstd::prelude::*;
use vstd::string::*;

use crate::num::{
    decimal_text, magnitude_of, magnitude_value, minus_if, pow10, push_decimal, shown, shown_parts,
    ten_to, Micros, Num,
};
use crate::text::{dec, dec_int, dec_pad2, dec_places, push_dec, push_int, push_pad2, push_places};

verus! {

pub const RESET: &'static str = "\x1b[0m";

pub const DIM: &'static str = "\x1b[2m";

pub const BOLD: &'static str = "\x1b[1m";

pub const GRAY: &'static str = "\x1b[90m";

pub const GREEN: &'static str = "\x1b[32m";

/// 256-colour amber (warning band).
pub const AMBER: &'static str = "\x1b[38;5;214m";

pub const RED: &'static str = "\x1b[31m";

/// Where the amber band starts: millionths of a percent of the allowance used.
pub const AMBER_AT: i64 = 80_000_000;

/// Where the red band starts.
pub const RED_AT: i64 = 90_000_000;

/// The colour of a percentage of the allowance used.
pub open spec fn band(pct: Option<Num>) -> &'static str {
    match pct {
        None => GRAY,
        Some(p) => if p.at_least(RED_AT as int) {
            RED
        } else if p.at_least(AMBER_AT as int) {
            AMBER
        } else {
            GREEN
        },
    }
}

pub fn color_for(pct: Option<Num>) -> (c: &'static str)
    ensures
        c == band(pct),
{
    match pct {
        None => GRAY,
        Some(p) => if p.is_at_least(RED_AT) {
            RED
        } else if p.is_at_least(AMBER_AT) {
            AMBER
        } else {
            GREEN
        },
    }
}

/// Text in a colour.
pub open spec fn painted(color: &'static str, body: Seq<char>) -> Seq<char> {
    color@ + body + RESET@
}

/// Appends `body` in a colour.
pub fn push_painted(s: &mut String, color: &'static str, body: &str)
    ensures
        final(s)@ == old(s)@ + painted(color, body@),
{
    s.append(color);
    s.append(body);
    s.append(RESET);
    assert(s@ =~= old(s)@ + painted(color, body@));
}

// ---------------------------------------------------------------------------------------
// Durations and clocks
// ---------------------------------------------------------------------------------------

/// A duration in whole seconds, in its two largest units.
pub open spec fn dur_text(secs: int) -> Seq<char> {
    let days = secs / 86_400;
    let hours = (secs % 86_400) / 3_600;
    let mins = (secs % 3_600) / 60;
    if secs <= 0 {
        "now"@
    } else if days > 0 {
        dec(days as nat) + "d"@ + (if hours > 0 {
            dec(hours as nat) + "h"@
        } else {
            Seq::empty()
        })
    } else if hours > 0 {
        dec(hours as nat) + "h"@ + (if mins > 0 {
            dec_pad2(mins) + "m"@
        } else {
            Seq::empty()
        })
    } else if mins > 0 {
        dec(mins as nat) + "m"@
    } else {
        "<1m"@
    }
}

/// Duration in seconds → compact human string (e.g. `53m`, `6d3h`, `2h05m`).
pub fn fmt_dur(secs: i64) -> (s: String)
    ensures
        s@ == dur_text(secs as int),
{
    if secs <= 0 {
        return "now".to_owned();
    }
    let days: i64 = secs / 86_400;
    let hours: i64 = (secs % 86_400) / 3_600;
    let mins: i64 = (secs % 3_600) / 60;
    let mut s = String::new();
    if days > 0 {
        push_dec(&mut s, days as u128);
        s.append("d");
        if hours > 0 {
            push_dec(&mut s, hours as u128);
            s.append("h");
        }
    } else if hours > 0 {
        push_dec(&mut s, hours as u128);
        s.append("h");
        if mins > 0 {
            push_pad2(&mut s, mins as i128);
            s.append("m");
        }
    } else if mins > 0 {
        push_dec(&mut s, mins as u128);
        s.append("m");
    } else {
        return "<1m".to_owned();
    }
    assert(s@ =~= dur_text(secs as int));
    s
}

/// Hour, minute, second and weekday (0 = Sunday) of the local clock.
pub type Hms = (i32, i32, i32, i32);

pub open spec fn weekday(wday: int) -> &'static str {
    let day = wday % 7;
    if day == 0 {
        "Sun"
    } else if day == 1 {
        "Mon"
    } else if day == 2 {
        "Tue"
    } else if day == 3 {
        "Wed"
    } else if day == 4 {
        "Thu"
    } else if day == 5 {
        "Fri"
    } else {
        "Sat"
    }
}

pub open spec fn clock_text(hour24: int, minute: int, wday: int) -> Seq<char> {
    let h12 = if hour24 % 12 == 0 {
        12
    } else {
        hour24 % 12
    };
    dec(h12 as nat) + ":"@ + dec_pad2(minute) + (if hour24 % 24 < 12 {
        "am"@
    } else {
        "pm"@
    }) + " ("@ + weekday(wday)@ + ")"@
}

fn weekday_name(wday: i32) -> (w: &'static str)
    ensures
        w == weekday(wday as int),
{
    // A multiple of seven past the least `i32`, so the remainder is taken of a natural number.
    let day: i64 = (wday as i64 + 2_147_483_653) % 7;
    if day == 0 {
        "Sun"
    } else if day == 1 {
        "Mon"
    } else if day == 2 {
        "Tue"
    } else if day == 3 {
        "Wed"
    } else if day == 4 {
        "Thu"
    } else if day == 5 {
        "Fri"
    } else {
        "Sat"
    }
}

/// Format a local (hour 0–23, minute, weekday 0=Sunday) as `8:50pm (Wed)`.
pub fn fmt_clock_parts(hour24: i32, minute: i32, wday: i32) -> (s: String)
    ensures
        s@ == clock_text(hour24 as int, minute as int, wday as int),
{
    let hour: i64 = (hour24 as i64 + 2_147_483_664) % 24;
    let h12: i64 = if hour % 12 == 0 {
        12
    } else {
        hour % 12
    };
    let mut s = String::new();
    push_dec(&mut s, h12 as u128);
    s.append(":");
    push_pad2(&mut s, minute as i128);
    if hour < 12 {
        s.append("am");
    } else {
        s.append("pm");
    }
    s.append(" (");
    s.append(weekday_name(wday));
    s.append(")");
    assert(s@ =~= clock_text(hour24 as int, minute as int, wday as int));
    s
}

pub open spec fn local_clock_text(hms: Option<Hms>) -> Option<Seq<char>> {
    match hms {
        Some((h, m, _, wday)) => Some(clock_text(h as int, m as int, wday as int)),
        None => None,
    }
}

/// The reset clock for a local time (e.g. `8:50pm (Wed)`), or `None` when local time is
/// unavailable.
pub fn fmt_clock(hms: Option<Hms>) -> (r: Option<String>)
    ensures
        match local_clock_text(hms) {
            Some(t) => r matches Some(s) && s@ == t,
            None => r is None,
        },
{
    match hms {
        Some((h, m, _, wday)) => Some(fmt_clock_parts(h, m, wday)),
        None => None,
    }
}

// ---------------------------------------------------------------------------------------
// Amounts
// ---------------------------------------------------------------------------------------

/// A number of tokens in millions with one decimal, in thousands, or as it is.
pub open spec fn tokens_text(n: Num) -> Seq<char> {
    match n {
        Num::Finite(v) => if v >= 1_000_000_000_000 {
            decimal_text(v as nat, 12, 1) + "M"@
        } else if v >= 1_000_000_000 {
            decimal_text(v as nat, 9, 0) + "k"@
        } else {
            dec_int(n.truncated())
        },
        Num::PosInf => "infM"@,
        _ => dec_int(n.truncated()),
    }
}

/// Token count → `457k` / `1.2M`.
pub fn fmt_tokens(n: Num) -> (s: String)
    ensures
        s@ == tokens_text(n),
{
    let mut s = String::new();
    match n {
        Num::Finite(v) => {
            if v >= 1_000_000_000_000 {
                push_decimal(&mut s, v as u128, 12, 1);
                s.append("M");
            } else if v >= 1_000_000_000 {
                push_decimal(&mut s, v as u128, 9, 0);
                s.append("k");
            } else {
                push_int(&mut s, n.trunc() as i128);
            }
        },
        Num::PosInf => {
            s.append("infM");
        },
        _ => {
            push_int(&mut s, n.trunc() as i128);
        },
    }
    assert(s@ =~= tokens_text(n));
    s
}

/// An amount with up to `d` decimals, the zeros at the end dropped.
pub open spec fn short_text(v: int, d: nat) -> Seq<char> {
    let h = shown(magnitude_of(v), 6, d);
    minus_if(v < 0) + dec(h / pow10(d)) + short_fraction(h, d)
}

/// The last `d` digits of `h` as a decimal fraction, the zeros at its end dropped.
pub open spec fn short_fraction(h: nat, d: nat) -> Seq<char>
    decreases d,
{
    if d == 0 {
        Seq::empty()
    } else if h % 10 == 0 {
        short_fraction(h / 10, (d - 1) as nat)
    } else {
        seq!['.'] + dec_places(h, d)
    }
}

fn push_short_fraction(s: &mut String, h: u128, d: u8)
    ensures
        final(s)@ == old(s)@ + short_fraction(h as nat, d as nat),
    decreases d,
{
    let ghost before = s@;
    if d > 0 {
        if h % 10 == 0 {
            push_short_fraction(s, h / 10, d - 1);
        } else {
            s.push('.');
            push_places(s, h, d);
        }
    }
    assert(s@ =~= before + short_fraction(h as nat, d as nat));
}

fn push_short(s: &mut String, v: i64, d: u8)
    requires
        0 < d < 6,
    ensures
        final(s)@ == old(s)@ + short_text(v as int, d as nat),
{
    let ghost before = s@;
    if v < 0 {
        s.push('-');
    }
    let h: u128 = shown_parts(magnitude_value(v as i128), 6, d);
    push_dec(s, h / ten_to(d));
    push_short_fraction(s, h, d);
    assert(s@ =~= before + short_text(v as int, d as nat));
}

pub open spec fn rate_text(r: int) -> Seq<char> {
    short_text(r, 1)
}

/// Burn rate → `30`, `4.3`, `2` (one decimal, trailing zeros trimmed).
pub fn fmt_rate(r: Micros) -> (s: String)
    ensures
        s@ == rate_text(r as int),
{
    let mut s = String::new();
    push_short(&mut s, r, 1);
    assert(s@ =~= rate_text(r as int));
    s
}

/// Dollars and cents; the cents are left out of a whole number of dollars.
pub open spec fn usd_text(v: int) -> Seq<char> {
    let h = shown(magnitude_of(v), 6, 2);
    "$"@ + minus_if(v < 0) + dec(h / 100) + (if h % 100 == 0 {
        Seq::empty()
    } else {
        "."@ + dec_places(h, 2)
    })
}

/// Dollars → `$12.40`, `$50`.
pub fn fmt_usd(v: Micros) -> (s: String)
    ensures
        s@ == usd_text(v as int),
{
    let mut s = String::new();
    s.append("$");
    if v < 0 {
        s.push('-');
    }
    let h: u128 = shown_parts(magnitude_value(v as i128), 6, 2);
    push_dec(&mut s, h / 100);
    if h % 100 != 0 {
        s.append(".");
        push_places(&mut s, h, 2);
    }
    assert(s@ =~= usd_text(v as int));
    s
}

pub open spec fn usd_rate_text(v: int) -> Seq<char> {
    "$"@ + short_text(v, 2)
}

/// Dollars per hour → `$3.2`, `$0.25`, `$5` (two decimals, trailing zeros trimmed).
pub fn fmt_usd_rate(v: Micros) -> (s: String)
    ensures
        s@ == usd_rate_text(v as int),
{
    let mut s = String::new();
    s.append("$");
    push_short(&mut s, v, 2);
    assert(s@ =~= usd_rate_text(v as int));
    s
}

/// Decimal notation with a comma before each group of three digits.
pub open spec fn grouped(n: nat) -> Seq<char>
    decreases n,
{
    if n < 1_000 {
        dec(n)
    } else {
        grouped(n / 1_000) + ","@ + dec_places(n % 1_000, 3)
    }
}

/// Appends a whole number with thousands separators.
pub fn push_grouped(s: &mut String, n: u128)
    ensures
        final(s)@ == old(s)@ + grouped(n as nat),
    decreases n,
{
    let ghost before = s@;
    if n < 1_000 {
        push_dec(s, n);
    } else {
        push_grouped(s, n / 1_000);
        s.append(",");
        push_places(s, n % 1_000, 3);
    }
    assert(s@ =~= before + grouped(n as nat));
}

pub open spec fn thousands_text(v: int) -> Seq<char> {
    minus_if(v < 0) + grouped(shown(magnitude_of(v), 6, 0))
}

/// Whole number with thousands separators (`264,000`).
pub fn group_thousands(n: Micros) -> (s: String)
    ensures
        s@ == thousands_text(n as int),
{
    let mut s = String::new();
    if n < 0 {
        s.push('-');
    }
    push_grouped(&mut s, shown_parts(magnitude_value(n as i128), 6, 0));
    assert(s@ =~= thousands_text(n as int));
    s
}

// ---------------------------------------------------------------------------------------
// The readout beside a bar
// ---------------------------------------------------------------------------------------

/// The burn and the warning, two spaces apart, as a terminal shows them.
pub open spec fn suffix_plain(body: Option<Seq<char>>, warn: Option<Seq<char>>) -> Seq<char> {
    match (body, warn) {
        (Some(b), Some(w)) => b + "  "@ + w,
        (Some(b), None) => b,
        (None, Some(w)) => w,
        (None, None) => Seq::empty(),
    }
}

/// The burn dim and the warning red.
pub open spec fn suffix_colored(body: Option<Seq<char>>, warn: Option<Seq<char>>) -> Seq<char> {
    match (body, warn) {
        (Some(b), Some(w)) => painted(DIM, b) + "  "@ + painted(RED, w),
        (Some(b), None) => painted(DIM, b),
        (None, Some(w)) => painted(RED, w),
        (None, None) => Seq::empty(),
    }
}

pub open spec fn text_opt(s: Option<String>) -> Option<Seq<char>> {
    match s {
        Some(x) => Some(x@),
        None => None,
    }
}

/// `(plain, coloured)`; `plain` is used only for width measurement.
pub fn suffix_pair(body: Option<String>, warn: Option<String>) -> (r: (String, String))
    ensures
        r.0@ == suffix_plain(text_opt(body), text_opt(warn)),
        r.1@ == suffix_colored(text_opt(body), text_opt(warn)),
{
    let ghost b0 = text_opt(body);
    let ghost w0 = text_opt(warn);
    let mut plain = String::new();
    let mut colored = String::new();
    let both = body.is_some() && warn.is_some();
    if let Some(b) = body {
        plain.append(b.as_str());
        push_painted(&mut colored, DIM, b.as_str());
    }
    if both {
        plain.append("  ");
        colored.append("  ");
    }
    if let Some(w) = warn {
        plain.append(w.as_str());
        push_painted(&mut colored, RED, w.as_str());
    }
    assert(plain@ =~= suffix_plain(b0, w0));
    assert(colored@ =~= suffix_colored(b0, w0));
    (plain, colored)
}

/// A duration reads as its two largest units: days and hours from a day on, hours and minutes from an
/// hour on, minutes from a minute on. A unit that there is none of is left out behind another, and
/// what is smaller than both is dropped.
pub proof fn a_duration_reads_as_its_two_largest_units(days: int, hours: int, mins: int, secs: int)
    requires
        days >= 0,
        0 <= hours < 24,
        0 <= mins < 60,
        0 <= secs < 60,
    ensures
        ({
            let text = dur_text(days * 86_400 + hours * 3_600 + mins * 60 + secs);
            &&& days > 0 && hours > 0 ==> text == dec(days as nat) + "d"@ + (dec(hours as nat)
                + "h"@)
            &&& days > 0 && hours == 0 ==> text == dec(days as nat) + "d"@
            &&& days == 0 && hours > 0 && mins > 0 ==> text == dec(hours as nat) + "h"@ + (dec_pad2(
                mins,
            ) + "m"@)
            &&& days == 0 && hours > 0 && mins == 0 ==> text == dec(hours as nat) + "h"@
            &&& days == 0 && hours == 0 && mins > 0 ==> text == dec(mins as nat) + "m"@
            &&& days == 0 && hours == 0 && mins == 0 && secs > 0 ==> text == "<1m"@
            &&& days == 0 && hours == 0 && mins == 0 && secs == 0 ==> text == "now"@
        }),
{
    let all = days * 86_400 + hours * 3_600 + mins * 60 + secs;
    let rest = hours * 3_600 + mins * 60 + secs;
    assert(all / 86_400 == days && all % 86_400 == rest);
    assert(rest / 3_600 == hours);
    let part = mins * 60 + secs;
    assert(all == (days * 24 + hours) * 3_600 + part);
    assert(all % 3_600 == part);
    assert(part / 60 == mins);
    let none = Seq::<char>::empty();
    assert(dec(days as nat) + "d"@ + none =~= dec(days as nat) + "d"@);
    assert(dec(hours as nat) + "h"@ + none =~= dec(hours as nat) + "h"@);
}

/// A clock reads the same twelve hours apart but for the half of the day.
pub proof fn a_clock_reads_in_twelve_hours(hour: int, minute: int, wday: int)
    requires
        0 <= hour < 12,
    ensures
        ({
            let face: Seq<char> = dec(
                if hour == 0 {
                    12
                } else {
                    hour as nat
                },
            ) + ":"@ + dec_pad2(minute);
            &&& clock_text(hour, minute, wday) == face + "am"@ + " ("@ + weekday(wday)@ + ")"@
            &&& clock_text(hour + 12, minute, wday) == face + "pm"@ + " ("@ + weekday(wday)@ + ")"@
        }),
{
    assert((hour + 12) % 12 == hour);
}

} // verus!
