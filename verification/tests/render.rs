use term_icon::catalog::candidates;
use term_icon::render::{
    begin_stream, candidate_row, clear_page, control_row, cup, end_stream, footer_probe,
    page_frame, COL_A0, COL_B0, COL_ICON0, MAX_CANDIDATES_PER_PAGE, PAGE_ROWS,
};

#[test]
fn cup_rows_zero_and_one_are_distinct() {
    // ECMA-48 aliases parameter 0 to 1; our conversion must not emit 0.
    assert_eq!(cup(0), "\x1b[1;1H");
    assert_eq!(cup(1), "\x1b[2;1H");
    assert_ne!(cup(0), cup(1));
    for r in 0..PAGE_ROWS - 1 {
        assert_ne!(cup(r), cup(r + 1));
    }
}

#[test]
fn pages_start_with_clear() {
    let mut stream = begin_stream();
    stream.extend(clear_page());
    let s = String::from_utf8(stream).unwrap();
    assert!(s.starts_with("\x1b[?1049h"));
    assert!(s.contains("\x1b[2J\x1b[H"));
}

#[test]
fn control_row_layout_matches_contract() {
    let row = control_row(0);
    assert!(row.starts_with("\x1b[1;1H"));
    let text: String = row["\x1b[1;1H".len()..].to_string();
    let cols: Vec<char> = text.chars().collect();
    assert_eq!(cols[0], '|');
    assert_eq!(cols[usize::from(COL_A0)], 'A');
    assert_eq!(cols[usize::from(COL_ICON0)], ' '); // blank reference slot
    assert_eq!(cols[usize::from(COL_B0)], 'B');
    assert_eq!(cols[6], '|');
    assert_eq!(text.chars().count(), 7);
}

#[test]
fn candidate_row_embeds_glyph_and_query() {
    let row = candidate_row(5, '\u{2502}');
    assert!(row.starts_with("\x1b[6;1H"));
    assert!(row.contains("| A\u{2502}B |"));
    assert!(row.ends_with("\x1b[6n"));
}

#[test]
fn footer_probe_targets_reserved_row() {
    let p = footer_probe();
    assert_eq!(p, "\x1b[25;1H\x1b[6n");
}

#[test]
fn end_stream_restores_terminal() {
    let s = String::from_utf8(end_stream()).unwrap();
    assert!(s.contains("\x1b[0m"));
    assert!(s.contains("\x1b[?25h"));
    assert!(s.contains("\x1b[?1049l"));
}

#[test]
fn frames_hold_control_candidates_and_footer_in_order() {
    let all = candidates();
    let frame = page_frame(&all[..2]);
    let clear = String::from_utf8(clear_page()).unwrap();
    let want = format!(
        "{clear}{}{}{}{}",
        control_row(0),
        candidate_row(1, '!'),
        candidate_row(2, '"'),
        footer_probe()
    );
    assert_eq!(frame, want);
}

#[test]
fn full_pages_stay_above_the_footer() {
    let all = candidates();
    let frame = page_frame(&all[..MAX_CANDIDATES_PER_PAGE]);
    assert_eq!(frame.matches("\x1b[6n").count(), 24);
    assert!(frame.contains("\x1b[24;1H"));
    assert_eq!(frame.matches("\x1b[25;1H").count(), 1);
}
