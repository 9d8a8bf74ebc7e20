use quotaline::bars::{framed, inner, simple_bar};
use quotaline::fmt::{AMBER, GRAY, GREEN, RED, RESET};
use quotaline::num::Num;

fn pct(x: f64) -> Option<Num> {
    Some(Num::Finite((x * 1e6).round() as i64))
}

/// Strip ANSI escape sequences so we can count visible cells.
fn visible(s: &str) -> String {
    let mut out = String::new();
    let mut chars = s.chars();
    while let Some(c) = chars.next() {
        if c == '\x1b' {
            for n in chars.by_ref() {
                if n == 'm' {
                    break;
                }
            }
        } else {
            out.push(c);
        }
    }
    out
}

fn inner_cells(pct: Option<Num>, width: usize) -> String {
    visible(&framed(pct, width))
        .chars()
        .filter(|&c| c != '▕' && c != '▏')
        .collect()
}

#[test]
fn full_is_all_blocks() {
    let cells = inner_cells(pct(100.0), 10);
    assert_eq!(cells.chars().count(), 10);
    assert_eq!(cells.chars().filter(|&c| c == '█').count(), 10);
}

#[test]
fn empty_and_none_are_width() {
    assert_eq!(inner_cells(pct(0.0), 12).chars().count(), 12);
    assert_eq!(inner_cells(None, 12).chars().count(), 12);
    assert_eq!(
        inner_cells(pct(0.0), 12)
            .chars()
            .filter(|&c| c == '█')
            .count(),
        0
    );
}

#[test]
fn fractional_keeps_width_and_partial() {
    // 31.25% of 8 cells = 20 eighths → 2 full blocks + a 4/8 (▌) partial; width preserved.
    let cells = inner_cells(pct(31.25), 8);
    assert_eq!(cells.chars().count(), 8);
    assert_eq!(cells.chars().filter(|&c| c == '█').count(), 2);
    assert!(
        cells.contains('▌'),
        "expected a 4/8 partial cell, got {cells:?}"
    );
}

#[test]
fn clamps_out_of_range() {
    assert_eq!(
        inner_cells(pct(250.0), 6)
            .chars()
            .filter(|&c| c == '█')
            .count(),
        6
    );
    assert_eq!(
        inner_cells(pct(-5.0), 6)
            .chars()
            .filter(|&c| c == '█')
            .count(),
        0
    );
}

#[test]
fn every_eighth_has_its_block() {
    let blocks = ['▏', '▎', '▍', '▌', '▋', '▊', '▉'];
    for (i, block) in blocks.iter().enumerate() {
        let bar = inner(pct(12.5 * (i + 1) as f64), 1);
        let color = if i == 6 { AMBER } else { GREEN };
        assert_eq!(bar, format!("{color}{block}{RESET}"));
    }
    assert_eq!(inner(pct(100.0), 1), format!("{RED}█{RESET}"));
}

#[test]
fn a_bar_keeps_its_width_whatever_it_shows() {
    for tenths in 0..=1000 {
        for width in [8, 23, 150] {
            let bar = visible(&inner(pct(tenths as f64 / 10.0), width));
            assert_eq!(bar.chars().count(), width);
        }
    }
    for odd in [Num::PosInf, Num::NegInf, Num::NaN] {
        assert_eq!(visible(&inner(Some(odd), 9)).chars().count(), 9);
    }
    assert_eq!(visible(&inner(Some(Num::PosInf), 9)), "█████████");
    assert_eq!(visible(&inner(Some(Num::NaN), 9)), "         ");
}

#[test]
fn the_report_bar_is_in_whole_cells() {
    assert_eq!(
        simple_bar(25_000_000, 14),
        format!("{GREEN}████{GRAY}░░░░░░░░░░{RESET}")
    );
    assert_eq!(visible(&simple_bar(9_000_000, 14)), "█░░░░░░░░░░░░░");
    assert_eq!(simple_bar(250_000_000, 3), format!("{RED}███{GRAY}{RESET}"));
    assert_eq!(simple_bar(-1, 3), format!("{GREEN}{GRAY}░░░{RESET}"));
}

/// How many eighths of a cell a bar fills.
fn eighths(bar: &str) -> i64 {
    visible(bar)
        .chars()
        .map(|c| match c {
            '█' => 8,
            '▉' => 7,
            '▊' => 6,
            '▋' => 5,
            '▌' => 4,
            '▍' => 3,
            '▎' => 2,
            '▏' => 1,
            _ => 0,
        })
        .sum()
}

#[test]
fn a_bar_fills_as_a_double_does() {
    for width in [1usize, 8, 10, 14, 17, 20, 24, 25, 30, 125, 250] {
        for tenth in 0..=1_000 {
            let p = tenth as f64 / 10.0;
            let want = ((p / 100.0) * width as f64 * 8.0).round() as i64;
            assert_eq!(eighths(&inner(pct(p), width)), want, "{p} {width}");
            let cells = (((p / 100.0) * width as f64).round() as usize).min(width);
            let bar = visible(&simple_bar((p * 1e6).round() as i64, width));
            assert_eq!(bar.chars().filter(|&c| c == '█').count(), cells, "{p} {width}");
        }
    }
    // 57.5% of 100 cells is half a cell past 57, and falls short of it in double precision.
    assert_eq!((57.5f64 / 100.0 * 100.0).round(), 57.0);
    let bar = visible(&simple_bar(57_500_000, 100));
    assert_eq!(bar.chars().filter(|&c| c == '█').count(), 57);
}
