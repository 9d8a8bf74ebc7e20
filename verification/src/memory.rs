//! Project-memory gauge.
//!
//! The harness auto-loads `MEMORY.md` every session but **head-truncates** it at 200 lines
//! or 25,000 UTF-16 code units (JS `.length`), silently dropping the tail past either cap.
//! This gauge shows how full the index is so you get a warning *before* memory stops
//! loading.
//!
//! The char margin tracks the harness's own threshold rather than a guess at a safe distance
//! from the cap. After every write to `MEMORY.md` it fires a `PostToolUse` hook
//! nagging that the index is "approaching the read limit". The smallest index ever observed
//! to trigger it sits just under 80% of the cap, so `CHAR_BUDGET` is 80% and the gauge stops
//! being green at about the moment the harness starts complaining. `LINE_BUDGET` stands at
//! 190: no firing has ever cited the line dimension, so there is nothing measured to move it
//! to.

use vstd::prelude::*;
use vstd::string::*;

use crate::double::{
    held_whole, lemma_max_grows, lemma_nearest_grows, lemma_nearest_wf, lemma_nearest_zero, lemma_over_grows,
    lemma_rounded_grows, lemma_times_grows, Double, Held,
};
use crate::fmt::{painted, push_painted, AMBER, DIM, GREEN, RED};
use crate::num::clamp_i64;
use crate::text::{chars_of, dec, dec_int, push_dec, push_int};

verus! {

pub const LINE_CAP: usize = 200;

pub const CHAR_CAP: usize = 25_000;

pub const LINE_BUDGET: usize = 190;

/// The harness's own "approaching the read limit" trigger, 80% of `CHAR_CAP`.
pub const CHAR_BUDGET: usize = 20_000;

// `intuition.md`: the curated always-loaded index, mounted among the rules files. These
// caps differ from the ones above in KIND, not just value. `MEMORY.md`'s are imposed by the
// harness and enforced by silent truncation; these are chosen, and the file is not size-capped
// at all. So over-cap here means "/dream will refuse to add and say so", which is a visible
// failure rather than a silently dropped tail.
pub const INT_CHAR_CAP: usize = 28_000;

/// The largest always-loaded index a store has actually run.
pub const INT_CHAR_BUDGET: usize = 25_000;

pub const INT_LINE_BUDGET: usize = 200;

/// Chars are the binding dimension here; the line rail is a sanity check. Set so the
/// budget-to-cap headroom matches the char dimension (200/224 == 25000/28000), which keeps
/// the two percentages comparable instead of having lines cry wolf first.
pub const INT_LINE_CAP: usize = 224;

/// One gauge's thresholds and label, so `MEMORY.md` and `intuition.md` share an
/// implementation rather than a copy of one.
pub struct Gauge {
    pub label: &'static str,
    pub line_cap: usize,
    pub char_cap: usize,
    pub line_budget: usize,
    pub char_budget: usize,
}

impl Gauge {
    /// A gauge measures against caps that can be filled.
    pub open spec fn wf(&self) -> bool {
        self.line_cap > 0 && self.char_cap > 0
    }
}

pub open spec fn mem_spec() -> Gauge {
    Gauge {
        label: "mem",
        line_cap: LINE_CAP,
        char_cap: CHAR_CAP,
        line_budget: LINE_BUDGET,
        char_budget: CHAR_BUDGET,
    }
}

pub open spec fn int_spec() -> Gauge {
    Gauge {
        label: "int",
        line_cap: INT_LINE_CAP,
        char_cap: INT_CHAR_CAP,
        line_budget: INT_LINE_BUDGET,
        char_budget: INT_CHAR_BUDGET,
    }
}

/// The gauge of `MEMORY.md`.
pub fn mem_gauge() -> (g: Gauge)
    ensures
        g == mem_spec(),
{
    Gauge {
        label: "mem",
        line_cap: LINE_CAP,
        char_cap: CHAR_CAP,
        line_budget: LINE_BUDGET,
        char_budget: CHAR_BUDGET,
    }
}

/// The gauge of `intuition.md`.
pub fn int_gauge() -> (g: Gauge)
    ensures
        g == int_spec(),
{
    Gauge {
        label: "int",
        line_cap: INT_LINE_CAP,
        char_cap: INT_CHAR_CAP,
        line_budget: INT_LINE_BUDGET,
        char_budget: INT_CHAR_BUDGET,
    }
}

#[derive(Clone, Copy, PartialEq, Eq, Debug, Structural)]
pub struct MemStat {
    pub lines: usize,
    /// UTF-16 code units, matching the JS `.length` that the harness truncates on.
    pub chars: usize,
}

/// What a project's memory directory holds; a file that is missing or cannot be read is
/// `None`.
pub struct ProjectMemory {
    /// `MEMORY.md`.
    pub index: Option<String>,
    /// `intuition.md`.
    pub intuition: Option<String>,
}

/// How many line ends `s` holds.
pub open spec fn newlines(s: Seq<char>) -> nat
    decreases s.len(),
{
    if s.len() == 0 {
        0
    } else {
        newlines(s.drop_last()) + (if s.last() == '\n' {
            1nat
        } else {
            0
        })
    }
}

/// How many UTF-16 code units write `s`: two for a character beyond the basic plane.
pub open spec fn utf16_len(s: Seq<char>) -> nat
    decreases s.len(),
{
    if s.len() == 0 {
        0
    } else {
        utf16_len(s.drop_last()) + (if s.last() >= '\u{10000}' {
            2nat
        } else {
            1
        })
    }
}

/// The largest count a `usize` holds stands for those beyond it.
pub open spec fn capped(n: nat) -> usize {
    if n > usize::MAX {
        usize::MAX
    } else {
        n as usize
    }
}

/// The size of a memory file: its lines, one more than its line ends, and its UTF-16 units.
pub open spec fn stat_of(content: Seq<char>) -> MemStat {
    MemStat { lines: capped(newlines(content) + 1), chars: capped(utf16_len(content)) }
}

pub open spec fn stat_opt(content: Option<String>) -> Option<MemStat> {
    match content {
        Some(t) => Some(stat_of(t@)),
        None => None,
    }
}

fn measure_text(content: &str) -> (r: MemStat)
    ensures
        r == stat_of(content@),
{
    let all = chars_of(content);
    let mut lines: usize = 1;
    let mut chars: usize = 0;
    let mut i: usize = 0;
    assert(all@.take(0) =~= Seq::<char>::empty());
    while i < all.len()
        invariant
            i <= all@.len(),
            all@ == content@,
            lines == capped(newlines(all@.take(i as int)) + 1),
            chars == capped(utf16_len(all@.take(i as int))),
        decreases all@.len() - i,
    {
        assert(all@.take(i + 1).drop_last() =~= all@.take(i as int));
        assert(all@.take(i + 1).last() == all@[i as int]);
        if all[i] == '\n' {
            lines = lines.saturating_add(1);
        }
        chars = chars.saturating_add(
            if all[i] >= '\u{10000}' {
                2
            } else {
                1
            },
        );
        i = i + 1;
    }
    assert(all@.take(i as int) =~= all@);
    MemStat { lines, chars }
}

/// Measure the current project's MEMORY.md, or `None` if there is no such file.
pub fn measure(memory: &ProjectMemory) -> (r: Option<MemStat>)
    ensures
        r == stat_opt(memory.index),
{
    match &memory.index {
        Some(t) => Some(measure_text(t.as_str())),
        None => None,
    }
}

/// Measure the current project's `intuition.md`, or `None` when the project has no such file.
///
/// Returning `None` is the normal case: only a store that has been migrated to the curated
/// index has one, so every other project renders the `mem` gauge alone and is unaffected.
pub fn measure_intuition(memory: &ProjectMemory) -> (r: Option<MemStat>)
    ensures
        r == stat_opt(memory.intuition),
{
    match &memory.intuition {
        Some(t) => Some(measure_text(t.as_str())),
        None => None,
    }
}

pub open spec fn level_of(g: Gauge, stat: MemStat) -> u8 {
    if stat.lines >= g.line_cap || stat.chars >= g.char_cap {
        2
    } else if stat.lines >= g.line_budget || stat.chars >= g.char_budget {
        1
    } else {
        0
    }
}

/// 0 = within budget, 1 = approaching the cap (amber), 2 = at/over the cap (red).
///
/// For `MEMORY.md` band 2 means the harness is truncating; for `intuition.md` it means
/// `/dream` will refuse to add. Different consequences, same three bands.
pub fn level_for(g: &Gauge, stat: &MemStat) -> (l: u8)
    ensures
        l == level_of(*g, *stat),
{
    if stat.lines >= g.line_cap || stat.chars >= g.char_cap {
        2
    } else if stat.lines >= g.line_budget || stat.chars >= g.char_budget {
        1
    } else {
        0
    }
}

/// How much of a cap is used, as a double.
pub open spec fn share(n: nat, cap: nat) -> Held {
    held_whole(n).over(held_whole(cap))
}

/// The binding dimension's share of its cap, in whole percent.
pub open spec fn fullness(g: Gauge, stat: MemStat) -> int {
    let by_lines = share(stat.lines as nat, g.line_cap as nat);
    let by_chars = share(stat.chars as nat, g.char_cap as nat);
    clamp_i64(by_lines.max(by_chars).times(held_whole(100)).rounded())
}

pub open spec fn level_color(level: u8) -> &'static str {
    if level == 2 {
        RED
    } else if level == 1 {
        AMBER
    } else {
        GREEN
    }
}

pub open spec fn segment_text(g: Gauge, stat: MemStat) -> Seq<char> {
    painted(DIM, g.label@ + " "@) + painted(
        level_color(level_of(g, stat)),
        dec_int(fullness(g, stat)) + "% ("@ + dec(stat.lines as nat) + "ln)"@,
    )
}

/// The colour of a level: green, amber, red.
pub fn color_of_level(level: u8) -> (c: &'static str)
    ensures
        c == level_color(level),
{
    if level == 2 {
        RED
    } else if level == 1 {
        AMBER
    } else {
        GREEN
    }
}

fn share_of(n: usize, cap: usize) -> (r: Double)
    requires
        cap > 0,
    ensures
        r@ == share(n as nat, cap as nat),
        r.wf(),
{
    Double::of_whole(n as u64).over(Double::of_whole(cap as u64))
}

pub fn segment_for(g: &Gauge, stat: &MemStat) -> (s: String)
    requires
        g.wf(),
    ensures
        s@ == segment_text(*g, *stat),
{
    let by_lines = share_of(stat.lines, g.line_cap);
    let by_chars = share_of(stat.chars, g.char_cap);
    let pct: i64 = by_lines.greater(by_chars).times(Double::of_whole(100)).round();
    let mut label = g.label.to_owned();
    label.append(" ");
    let mut value = String::new();
    push_int(&mut value, pct as i128);
    value.append("% (");
    push_dec(&mut value, stat.lines as u128);
    value.append("ln)");
    let mut s = String::new();
    push_painted(&mut s, DIM, label.as_str());
    push_painted(&mut s, color_of_level(level_for(g, stat)), value.as_str());
    assert(value@ =~= dec_int(fullness(*g, *stat)) + "% ("@ + dec(stat.lines as nat) + "ln)"@);
    assert(s@ =~= segment_text(*g, *stat));
    s
}

/// Header segment, e.g. `mem 71% (142ln)` — percentage is the binding dimension vs its cap.
pub fn header_segment(stat: &MemStat) -> (s: String)
    ensures
        s@ == segment_text(mem_spec(), *stat),
{
    segment_for(&mem_gauge(), stat)
}

/// Header segment for `intuition.md`, e.g. `int 67% (128ln)`.
///
/// Deliberately identical in shape to `mem`: percentage against the cap, amber at the budget.
/// The two caps mean different things (one imposed, one chosen) but a reader should not have
/// to hold that distinction to compare two numbers printed side by side in the same format.
pub fn intuition_header_segment(stat: &MemStat) -> (s: String)
    ensures
        s@ == segment_text(int_spec(), *stat),
{
    segment_for(&int_gauge(), stat)
}

/// A file that grows never looks emptier: neither its level nor its percentage falls.
pub proof fn a_growing_file_never_looks_emptier(g: Gauge, a: MemStat, b: MemStat)
    requires
        g.wf(),
        g.line_budget <= g.line_cap,
        g.char_budget <= g.char_cap,
        a.lines <= b.lines,
        a.chars <= b.chars,
    ensures
        level_of(g, a) <= level_of(g, b),
        fullness(g, a) <= fullness(g, b),
{
    let (l, m) = (
        share(a.lines as nat, g.line_cap as nat),
        share(b.lines as nat, g.line_cap as nat),
    );
    let (c, d) = (
        share(a.chars as nat, g.char_cap as nat),
        share(b.chars as nat, g.char_cap as nat),
    );
    lemma_share_grows(a.lines as nat, b.lines as nat, g.line_cap as nat);
    lemma_share_grows(a.chars as nat, b.chars as nat, g.char_cap as nat);
    lemma_max_grows(l, m, c, d);
    lemma_times_grows(l.max(c), m.max(d), held_whole(100));
    lemma_rounded_grows(
        l.max(c).times(held_whole(100)),
        m.max(d).times(held_whole(100)),
    );
}

/// The percentage is that of the dimension which is nearer to its cap.
pub proof fn the_fuller_dimension_is_shown(g: Gauge, stat: MemStat)
    requires
        g.wf(),
        g.line_budget <= g.line_cap,
        g.char_budget <= g.char_cap,
    ensures
        ({
            let by_lines = fullness(g, MemStat { lines: stat.lines, chars: 0 });
            let by_chars = fullness(g, MemStat { lines: 0, chars: stat.chars });
            fullness(g, stat) == if by_lines > by_chars {
                by_lines
            } else {
                by_chars
            }
        }),
{
    let lines = MemStat { lines: stat.lines, chars: 0 };
    let chars = MemStat { lines: 0, chars: stat.chars };
    a_growing_file_never_looks_emptier(g, lines, stat);
    a_growing_file_never_looks_emptier(g, chars, stat);
    let none = Held { digits: 0, exp: 0 };
    lemma_nearest_zero(1, 0);
    let (lc, cc) = (held_whole(g.line_cap as nat), held_whole(g.char_cap as nat));
    lemma_nearest_zero(lc.digits, 0 - lc.exp);
    lemma_nearest_zero(cc.digits, 0 - cc.exp);
    assert(share(0, g.line_cap as nat) == none);
    assert(share(0, g.char_cap as nat) == none);
    let (l, c) = (
        share(stat.lines as nat, g.line_cap as nat),
        share(stat.chars as nat, g.char_cap as nat),
    );
    assert(l.max(none) == l);
    lemma_share_grows(0, stat.chars as nat, g.char_cap as nat);
    assert(none.max(c) == c);
}

proof fn lemma_share_grows(a: nat, b: nat, cap: nat)
    requires
        a <= b,
        cap > 0,
    ensures
        share(a, cap).wf(),
        share(b, cap).wf(),
        !share(b, cap).below(share(a, cap)),
{
    lemma_nearest_grows(a, b, 1, 0);
    lemma_nearest_wf(cap, 1, 0);
    lemma_over_grows(held_whole(a), held_whole(b), held_whole(cap));
}

} // verus!
