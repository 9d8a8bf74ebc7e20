use quotaline::fmt::{AMBER, DIM, GREEN, RED, RESET};
use quotaline::memory::{
    header_segment, int_gauge, intuition_header_segment, level_for, measure, measure_intuition,
    mem_gauge, MemStat, ProjectMemory, CHAR_BUDGET, CHAR_CAP, INT_CHAR_BUDGET, INT_CHAR_CAP,
    INT_LINE_BUDGET, INT_LINE_CAP,
};

fn stat(lines: usize, chars: usize) -> MemStat {
    MemStat { lines, chars }
}

fn files(index: Option<&str>, intuition: Option<&str>) -> ProjectMemory {
    ProjectMemory {
        index: index.map(|s| s.to_string()),
        intuition: intuition.map(|s| s.to_string()),
    }
}

#[test]
fn levels() {
    assert_eq!(level_for(&mem_gauge(), &stat(100, 12_000)), 0);
    assert_eq!(level_for(&mem_gauge(), &stat(192, 12_000)), 1); // lines in the budget margin
    assert_eq!(level_for(&mem_gauge(), &stat(100, 24_000)), 1); // chars in the budget margin
    assert_eq!(level_for(&mem_gauge(), &stat(200, 12_000)), 2); // line cap → truncating
    assert_eq!(level_for(&mem_gauge(), &stat(100, 25_500)), 2); // char cap → truncating
}

#[test]
fn amber_starts_exactly_at_the_harness_trigger() {
    // The gauge must not be green while the harness is already asking for a compaction.
    assert_eq!(level_for(&mem_gauge(), &stat(100, CHAR_BUDGET - 1)), 0);
    assert_eq!(level_for(&mem_gauge(), &stat(100, CHAR_BUDGET)), 1);
    // A 23,500 budget would sit 3,500 units above the trigger.
    assert_eq!(level_for(&mem_gauge(), &stat(100, 20_000)), 1);
    assert_eq!(level_for(&mem_gauge(), &stat(100, 23_499)), 1);
}

#[test]
fn char_budget_tracks_the_measured_trigger() {
    // The smallest reported "approaching" size was 19.5KB and 80% of the cap is 19.53KB, so
    // the harness warns at 20,000 units.
    assert_eq!(CHAR_BUDGET, CHAR_CAP * 4 / 5);
}

#[test]
fn intuition_gauge_has_its_own_thresholds() {
    // The same file size is judged differently: at 22,000 chars the harness would already be
    // nagging about a MEMORY.md, so mem is amber; intuition.md is not subject to that cap and
    // is still inside its own budget, so int is green.
    assert_eq!(level_for(&mem_gauge(), &stat(128, 22_000)), 1);
    assert_eq!(level_for(&int_gauge(), &stat(128, 22_000)), 0);
    // And a real migrated index (18,828 / 128) is comfortably green on both.
    assert_eq!(level_for(&int_gauge(), &stat(128, 18_828)), 0);
    assert_eq!(level_for(&mem_gauge(), &stat(128, 18_828)), 0);

    assert_eq!(level_for(&int_gauge(), &stat(100, INT_CHAR_BUDGET - 1)), 0);
    assert_eq!(level_for(&int_gauge(), &stat(100, INT_CHAR_BUDGET)), 1);
    assert_eq!(level_for(&int_gauge(), &stat(100, INT_CHAR_CAP)), 2);
    assert_eq!(level_for(&int_gauge(), &stat(INT_LINE_BUDGET, 100)), 1);
    assert_eq!(level_for(&int_gauge(), &stat(INT_LINE_CAP, 100)), 2);
}

#[test]
fn line_rail_does_not_cry_wolf_before_the_char_budget() {
    // Chars bind for intuition.md; the line rail is a sanity check. If the two dimensions
    // had different budget-to-cap headroom, a normal index would go amber on lines while
    // still well inside its char budget, and the percentage would stop meaning anything.
    let by_chars = INT_CHAR_BUDGET as f64 / INT_CHAR_CAP as f64;
    let by_lines = INT_LINE_BUDGET as f64 / INT_LINE_CAP as f64;
    assert!(
        (by_chars - by_lines).abs() < 0.01,
        "headroom mismatch: chars {by_chars:.3} vs lines {by_lines:.3}"
    );
}

#[test]
fn intuition_segment_is_labelled_and_shaped_like_mem() {
    let seg = intuition_header_segment(&stat(128, 18_828));
    assert!(seg.contains("int "), "{seg}");
    assert!(seg.contains("(128ln)"), "{seg}");
    // 18828/28000 = 67%, and lines 128/224 = 57%, so chars bind.
    assert!(seg.contains("67%"), "{seg}");
    assert!(
        !seg.contains("mem"),
        "must not borrow the other gauge's label: {seg}"
    );
}

#[test]
fn measure_reads_each_index_and_is_absent_when_the_file_is() {
    // A store that has not been migrated: MEMORY.md only. This is every other project,
    // and it must render the mem gauge alone rather than an empty or bogus int one.
    let plain = files(Some("a\nb\nc\n"), None);
    assert!(measure(&plain).is_some());
    assert!(
        measure_intuition(&plain).is_none(),
        "intuition gauge must be absent when the project has no intuition.md"
    );

    // A migrated store: both present, measured independently.
    let both = files(Some("a\nb\nc\n"), Some("x\ny\n"));
    let m = measure(&both).unwrap();
    let i = measure_intuition(&both).unwrap();
    assert_eq!((m.lines, m.chars), (4, 6));
    assert_eq!((i.lines, i.chars), (3, 4));

    let none = files(None, None);
    assert!(measure(&none).is_none());
    assert!(measure_intuition(&none).is_none());
}

#[test]
fn chars_are_utf16_units_not_bytes() {
    // The harness truncates on JS `.length`. A non-BMP char is 2 UTF-16 units and 4 UTF-8
    // bytes, so counting bytes would over-report and trip the gauge early.
    let store = files(None, Some("𝄞")); // 1 scalar, 2 UTF-16 units, 4 bytes
    assert_eq!(measure_intuition(&store).unwrap().chars, 2);
    assert_eq!(measure(&files(Some("é—\u{ffff}"), None)).unwrap().chars, 3);
    assert_eq!(measure(&files(Some(""), None)), Some(stat(1, 0)));
}

#[test]
fn header_uses_binding_dimension() {
    // chars dominate: 20000/25000 = 80% vs lines 100/200 = 50%. Note 20,000 is also the amber
    // boundary, so this segment is amber; the assertions below are about the percentage
    // arithmetic, which is cap-denominated and independent of the colour.
    let seg = header_segment(&stat(100, 20_000));
    assert!(seg.contains("80%"), "{seg}");
    assert!(seg.contains("(100ln)"), "{seg}");
}

#[test]
fn segments_in_full() {
    assert_eq!(
        header_segment(&stat(142, 100)),
        format!("{DIM}mem {RESET}{GREEN}71% (142ln){RESET}")
    );
    assert_eq!(
        header_segment(&stat(100, 20_000)),
        format!("{DIM}mem {RESET}{AMBER}80% (100ln){RESET}")
    );
    assert_eq!(
        intuition_header_segment(&stat(448, 28_000)),
        format!("{DIM}int {RESET}{RED}200% (448ln){RESET}")
    );
}

/// The percentage in a header segment.
fn shown_pct(segment: &str) -> i64 {
    let end = segment.find('%').unwrap();
    let start = segment[..end].rfind(|c: char| !c.is_ascii_digit()).unwrap() + 1;
    segment[start..end].parse().unwrap()
}

#[test]
fn a_percentage_rounds_as_a_double_does() {
    // 115 of 200 is 57.5%, which in double precision comes to 57.49999999999999.
    assert!(header_segment(&stat(115, 0)).contains("57% (115ln)"));
    assert!(header_segment(&stat(113, 0)).contains("56% (113ln)"));
    assert!(header_segment(&stat(1, 0)).contains("1% (1ln)"));
    for lines in 0..450usize {
        for chars in [0, 1, 7_999, 14_375, 14_500, 25_625, 1 << 53, usize::MAX] {
            let s = stat(lines, chars);
            let by_lines = lines as f64 / 200.0;
            let by_chars = chars as f64 / CHAR_CAP as f64;
            let pct = (by_lines.max(by_chars) * 100.0).round() as i64;
            assert_eq!(shown_pct(&header_segment(&s)), pct, "{lines} {chars}");
        }
    }
    for chars in 0..30_000usize {
        let pct = (chars as f64 / INT_CHAR_CAP as f64 * 100.0).round() as i64;
        assert_eq!(shown_pct(&intuition_header_segment(&stat(0, chars))), pct, "{chars}");
    }
}

#[test]
fn a_growing_file_never_shows_a_smaller_percentage() {
    let mut last = 0;
    for lines in 0..1_000 {
        let now = shown_pct(&header_segment(&stat(lines, 40 * lines)));
        assert!(last <= now);
        last = now;
    }
}
