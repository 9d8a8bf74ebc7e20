//! A smooth-fill progress bar — full blocks plus a fractional eighth-block leading edge for
//! sub-cell resolution — inside a slim dim frame `▕ … ▏`.

use vstd::prelude::*;
use vstd::string::*;

use crate::burn::FULL_PCT;
use crate::double::{
    held_micros, held_whole, lemma_all_of, lemma_nearest_wf, lemma_none_of, lemma_over_grows,
    lemma_rounded_grows, lemma_rounded_is_natural, lemma_times_grows, Double, Held,
};
use crate::fmt::{band, color_for, painted, push_painted, DIM, GRAY, RESET};
use crate::num::{clamp_i64, Micros, Num, DOUBLE_DIGITS};
use crate::text::{push_repeated, repeated};

verus! {

pub const FULL: char = '█';

/// A percentage held between nothing and all, in millionths. What is not a number shows as
/// nothing.
pub open spec fn clamped(n: Num) -> i64 {
    match n {
        Num::Finite(v) => if v < 0 {
            0
        } else if v > FULL_PCT {
            FULL_PCT
        } else {
            v
        },
        Num::PosInf => FULL_PCT,
        Num::NegInf => 0,
        Num::NaN => 0,
    }
}

fn clamp_pct(n: Num) -> (v: Micros)
    ensures
        v == clamped(n),
        0 <= v <= FULL_PCT,
{
    match n {
        Num::Finite(v) => if v < 0 {
            0
        } else if v > FULL_PCT {
            FULL_PCT
        } else {
            v
        },
        Num::PosInf => FULL_PCT,
        Num::NegInf => 0,
        Num::NaN => 0,
    }
}

/// How far a percentage fills a bar, in cells.
pub open spec fn filled(p: Held, width: nat) -> Held {
    p.over(held_whole(100)).times(held_whole(width))
}

pub open spec fn at_most(n: int, bound: int) -> int {
    if n > bound {
        bound
    } else {
        n
    }
}

/// How many whole cells a percentage fills, to the nearest.
pub open spec fn cells_filled(p: Held, width: nat) -> int {
    at_most(clamp_i64(filled(p, width).rounded()), width as int)
}

/// How many eighths of a cell a percentage fills, to the nearest.
pub open spec fn eighths_filled(p: Held, width: nat) -> int {
    at_most(clamp_i64(filled(p, width).times(held_whole(8)).rounded()), (width * 8) as int)
}

/// The percentage that a bar shows, as a double.
pub open spec fn bar_share(n: Num) -> Held {
    held_micros(clamped(n) as nat)
}

/// The block that is one-eighth … seven-eighths wide.
pub open spec fn eighth(n: int) -> char {
    if n == 1 {
        '▏'
    } else if n == 2 {
        '▎'
    } else if n == 3 {
        '▍'
    } else if n == 4 {
        '▌'
    } else if n == 5 {
        '▋'
    } else if n == 6 {
        '▊'
    } else {
        '▉'
    }
}

fn eighth_block(n: u8) -> (c: char)
    ensures
        c == eighth(n as int),
{
    if n == 1 {
        '▏'
    } else if n == 2 {
        '▎'
    } else if n == 3 {
        '▍'
    } else if n == 4 {
        '▌'
    } else if n == 5 {
        '▋'
    } else if n == 6 {
        '▊'
    } else {
        '▉'
    }
}

/// The cells of a bar that is filled to so many eighths: full blocks, and a partial one if
/// eighths are left over.
pub open spec fn fill_cells(eighths: int) -> Seq<char> {
    repeated(FULL, (eighths / 8) as nat) + (if eighths % 8 > 0 {
        seq![eighth(eighths % 8)]
    } else {
        Seq::empty()
    })
}

/// The filled cells of a bar, `width` cells wide, that shows the percentage `p`.
pub open spec fn bar_fill(p: Held, width: nat) -> Seq<char> {
    fill_cells(eighths_filled(p, width))
}

/// The inner bar: the fill in its colour, then blanks.
pub open spec fn share_text(share: Option<Held>, color: &str, width: nat) -> Seq<char> {
    match share {
        None => painted(GRAY, repeated(' ', width)),
        Some(p) => painted(color, bar_fill(p, width)) + repeated(
            ' ',
            (width - bar_fill(p, width).len()) as nat,
        ),
    }
}

pub open spec fn share_opt(pct: Option<Num>) -> Option<Held> {
    match pct {
        None => None,
        Some(n) => Some(bar_share(n)),
    }
}

/// The colour of a bar.
pub open spec fn bar_color(pct: Option<Num>) -> &'static str {
    match pct {
        None => GRAY,
        Some(n) => band(Some(Num::Finite(clamped(n)))),
    }
}

/// The inner bar of a percentage.
pub open spec fn inner_text(pct: Option<Num>, width: nat) -> Seq<char> {
    share_text(share_opt(pct), bar_color(pct), width)
}

proof fn lemma_filled(p: Held, width: nat)
    ensures
        0 <= eighths_filled(p, width) <= width * 8,
        0 <= cells_filled(p, width) <= width,
{
    lemma_rounded_is_natural(filled(p, width));
    lemma_rounded_is_natural(filled(p, width).times(held_whole(8)));
}

/// A bar takes up exactly its width, whatever it shows.
pub proof fn a_bar_fits_its_width(p: Held, width: nat)
    ensures
        bar_fill(p, width).len() <= width,
        (bar_fill(p, width) + repeated(' ', (width - bar_fill(p, width).len()) as nat)).len()
            == width,
{
    lemma_filled(p, width);
}

/// At a hundred percent and above every cell is a full block; at zero and below none is. The
/// width is one that a double holds exactly.
pub proof fn a_full_bar_is_all_blocks(n: Num, width: nat)
    requires
        width < 2 * DOUBLE_DIGITS,
    ensures
        n.at_least(FULL_PCT as int) ==> bar_fill(bar_share(n), width) == repeated(FULL, width),
        n.below(1) ==> bar_fill(bar_share(n), width) == Seq::<char>::empty(),
{
    if n.at_least(FULL_PCT as int) {
        lemma_all_of(width);
        assert(bar_fill(bar_share(n), width) =~= repeated(FULL, width));
    }
    if n.below(1) {
        lemma_none_of(width);
        assert(bar_fill(bar_share(n), width) =~= Seq::<char>::empty());
    }
}

/// A greater percentage never fills less of a bar.
pub proof fn a_bar_never_shrinks_as_it_fills(p: Held, q: Held, width: nat)
    requires
        p.wf(),
        q.wf(),
        !q.below(p),
        width > 0,
    ensures
        eighths_filled(p, width) <= eighths_filled(q, width),
        cells_filled(p, width) <= cells_filled(q, width),
        bar_fill(p, width).len() <= bar_fill(q, width).len(),
{
    lemma_nearest_wf(100, 1, 0);
    lemma_nearest_wf(width, 1, 0);
    lemma_nearest_wf(8, 1, 0);
    lemma_over_grows(p, q, held_whole(100));
    let (a, b) = (p.over(held_whole(100)), q.over(held_whole(100)));
    lemma_times_grows(a, b, held_whole(width));
    let (x, y) = (filled(p, width), filled(q, width));
    lemma_rounded_grows(x, y);
    lemma_times_grows(x, y, held_whole(8));
    lemma_rounded_grows(x.times(held_whole(8)), y.times(held_whole(8)));
    lemma_filled(p, width);
    lemma_filled(q, width);
}

fn fill(p: Double, width: usize) -> (r: Double)
    requires
        p.wf(),
        -2_000 <= p.exp <= 2_000,
    ensures
        r@ == filled(p@, width as nat),
        r.wf(),
{
    p.over(Double::of_whole(100)).times(Double::of_whole(width as u64))
}

/// How many whole cells a percentage fills.
fn fill_cell_count(p: Double, width: usize) -> (r: usize)
    requires
        p.wf(),
        -2_000 <= p.exp <= 2_000,
    ensures
        r == cells_filled(p@, width as nat),
        r <= width,
{
    proof {
        lemma_filled(p@, width as nat);
    }
    let n: i64 = fill(p, width).round();
    if n as i128 > width as i128 {
        width
    } else {
        n as usize
    }
}

/// How many eighths of a cell a percentage fills.
fn fill_eighth_count(p: Double, width: usize) -> (r: u128)
    requires
        p.wf(),
        -2_000 <= p.exp <= 2_000,
    ensures
        r == eighths_filled(p@, width as nat),
        r <= width * 8,
{
    proof {
        lemma_filled(p@, width as nat);
    }
    let n: i64 = fill(p, width).times(Double::of_whole(8)).round();
    let all: u128 = width as u128 * 8;
    if n as i128 > all as i128 {
        all
    } else {
        n as u128
    }
}

/// The inner bar of a percentage that is already a double.
fn inner_share(share: Option<Double>, color: &'static str, width: usize) -> (s: String)
    requires
        share matches Some(p) ==> p.wf() && -2_000 <= p.exp <= 2_000,
    ensures
        s@ == share_text(held_opt(share), color, width as nat),
{
    let mut s = String::new();
    let p = match share {
        None => {
            s.append(GRAY);
            push_repeated(&mut s, ' ', width);
            s.append(RESET);
            assert(s@ =~= share_text(held_opt(share), color, width as nat));
            return s;
        },
        Some(p) => p,
    };
    let eighths: u128 = fill_eighth_count(p, width);
    let full: usize = (eighths / 8) as usize;
    let frac: u8 = (eighths % 8) as u8;
    s.append(color);
    push_repeated(&mut s, FULL, full);
    let mut used: usize = full;
    if frac > 0 {
        s.push(eighth_block(frac));
        used = used + 1;
    }
    s.append(RESET);
    push_repeated(&mut s, ' ', width - used);
    assert(s@ =~= share_text(held_opt(share), color, width as nat));
    s
}

pub open spec fn held_opt(share: Option<Double>) -> Option<Held> {
    match share {
        None => None,
        Some(p) => Some(p@),
    }
}

pub fn color_of_bar(pct: Option<Num>) -> (c: &'static str)
    ensures
        c == bar_color(pct),
{
    match pct {
        None => GRAY,
        Some(n) => color_for(Some(Num::Finite(clamp_pct(n)))),
    }
}

fn share_and_color(pct: Option<Num>) -> (r: (Option<Double>, &'static str))
    ensures
        held_opt(r.0) == share_opt(pct),
        r.1 == bar_color(pct),
        r.0 matches Some(p) ==> p.wf() && -2_000 <= p.exp <= 2_000,
{
    match pct {
        None => (None, GRAY),
        Some(n) => {
            let p: Micros = clamp_pct(n);
            (Some(Double::of_micros(p as u64)), color_of_bar(pct))
        },
    }
}

/// The inner bar (no frame): `width` cells, coloured by `pct`. `None` → dim empty track.
pub fn inner(pct: Option<Num>, width: usize) -> (s: String)
    ensures
        s@ == inner_text(pct, width as nat),
{
    let (share, color) = share_and_color(pct);
    inner_share(share, color, width)
}

/// An inner bar in the slim dim frame.
pub open spec fn framed_share_text(share: Option<Held>, color: &str, width: nat) -> Seq<char> {
    painted(DIM, "▕"@) + share_text(share, color, width) + painted(DIM, "▏"@)
}

pub open spec fn framed_text(pct: Option<Num>, width: nat) -> Seq<char> {
    framed_share_text(share_opt(pct), bar_color(pct), width)
}

/// Inner bar wrapped in the slim dim frame.
pub fn framed(pct: Option<Num>, width: usize) -> (s: String)
    ensures
        s@ == framed_text(pct, width as nat),
{
    let (share, color) = share_and_color(pct);
    framed_share(share, color, width)
}

/// The same for a percentage that is already a double.
pub fn framed_share(share: Option<Double>, color: &'static str, width: usize) -> (s: String)
    requires
        share matches Some(p) ==> p.wf() && -2_000 <= p.exp <= 2_000,
    ensures
        s@ == framed_share_text(held_opt(share), color, width as nat),
{
    let mut s = String::new();
    push_painted(&mut s, DIM, "▕");
    s.append(inner_share(share, color, width).as_str());
    push_painted(&mut s, DIM, "▏");
    assert(s@ =~= framed_share_text(held_opt(share), color, width as nat));
    s
}

/// A bar in whole cells, for the report.
#[verifier::opaque]
pub open spec fn simple_bar_text(pct: int, width: nat) -> Seq<char> {
    let p = clamped(Num::Finite(pct as i64));
    let fill = cells_filled(held_micros(p as nat), width) as nat;
    band(Some(Num::Finite(p)))@ + repeated(FULL, fill) + GRAY@ + repeated(
        '░',
        (width - fill) as nat,
    ) + RESET@
}

pub fn simple_bar(pct: Micros, width: usize) -> (s: String)
    ensures
        s@ == simple_bar_text(pct as int, width as nat),
{
    reveal(simple_bar_text);
    let p = clamp_pct(Num::Finite(pct));
    let fill: usize = fill_cell_count(Double::of_micros(p as u64), width);
    let mut s = String::new();
    s.append(color_for(Some(Num::Finite(p))));
    push_repeated(&mut s, FULL, fill);
    s.append(GRAY);
    push_repeated(&mut s, '░', width - fill);
    s.append(RESET);
    assert(s@ =~= simple_bar_text(pct as int, width as nat));
    s
}

} // verus!
