use term_icon::dsr::{CursorReport, DsrParser, ReportLog};

fn feed_all(bytes: &[u8]) -> Vec<CursorReport> {
    let mut p = DsrParser::default();
    p.feed(bytes)
}

#[test]
fn parses_simple_report() {
    assert_eq!(
        feed_all(b"\x1b[10;5R"),
        vec![CursorReport {
            row_1based: 10,
            col_1based: 5
        }]
    );
}

#[test]
fn parses_concatenated_reports() {
    let out = feed_all(b"\x1b[1;8R\x1b[2;8R\x1b[24;9R");
    assert_eq!(out.len(), 3);
    assert_eq!(out[0].row_1based, 1);
    assert_eq!(out[2].col_1based, 9);
}

#[test]
fn handles_split_feeds_byte_by_byte() {
    let mut p = DsrParser::default();
    let mut all = Vec::new();
    for b in b"\x1b[7;3R" {
        all.extend(p.feed(std::slice::from_ref(b)));
    }
    assert_eq!(
        all,
        vec![CursorReport {
            row_1based: 7,
            col_1based: 3
        }]
    );
}

#[test]
fn ignores_stray_da_reply() {
    // Primary DA reply carries a private marker and final `c`.
    assert!(feed_all(b"\x1b[?1;2c").is_empty());
}

#[test]
fn ignores_mode_and_other_csi_sequences() {
    assert!(feed_all(b"\x1b[?1049h\x1b[2J\x1b[H\x1b[0m").is_empty());
}

#[test]
fn garbage_between_reports_is_inert() {
    let out = feed_all(b"hello \x1b world \x1b[12;4R trailing");
    assert_eq!(out.len(), 1);
    assert_eq!(
        out[0],
        CursorReport {
            row_1based: 12,
            col_1based: 4
        }
    );
}

#[test]
fn footer_sentinel_distinguished_from_row_report() {
    // Row-24 candidate reply followed by the dedicated footer sentinel.
    let mut log = ReportLog::new();
    log.feed(b"\x1b[24;8R");
    assert!(log.find_from(0, CursorReport::new(25, 1)).is_none());
    log.feed(b"\x1b[25;1R");
    assert!(log.find_from(0, CursorReport::new(25, 1)).is_some());
    // Both responses preserved: nothing was discarded.
    assert_eq!(log.reports().len(), 2);
    assert_eq!(log.reports()[0].page_row0(), 23);
}

#[test]
fn normalization_is_single_point() {
    assert_eq!(CursorReport::new(1, 8).page_row0(), 0);
    assert_eq!(CursorReport::new(25, 1).page_row0(), 24);
}

#[test]
fn splitting_anywhere_gives_the_same_reports() {
    let stream = b"x\x1b[1;8R\x1b[?6c\x1b\x1b[2;9R\x1b[3R\x1b[4;5;6R\x1b[70;80R";
    let whole = feed_all(stream);
    for cut in 0..stream.len() {
        let mut p = DsrParser::default();
        let mut out = p.feed(&stream[..cut]);
        out.extend(p.feed(&stream[cut..]));
        assert_eq!(out, whole, "cut at {cut}");
    }
}

#[test]
fn earlier_reports_are_kept() {
    let mut log = ReportLog::default();
    log.feed(b"\x1b[5;6R");
    let before = log.reports().to_vec();
    log.feed(b"noise\x1b[7;8R");
    assert_eq!(log.reports()[..1], before[..]);
    assert_eq!(log.reports().len(), 2);
    assert_eq!(log.find_from(1, CursorReport::new(5, 6)), None);
    assert_eq!(log.find_from(0, CursorReport::new(7, 8)), Some(1));
}

#[test]
fn page_rows_never_go_below_zero() {
    assert_eq!(CursorReport::new(0, 1).page_row0(), 0);
}

#[test]
fn incomplete_and_overlong_reports_are_dropped() {
    assert!(feed_all(b"\x1b[12;").is_empty());
    assert!(feed_all(b"\x1b[;5R").is_empty());
    assert!(feed_all(b"\x1b[5;R").is_empty());
    assert!(feed_all(b"\x1b[99999999999;1R").is_empty());
}

#[test]
fn report_lists_decode_to_themselves() {
    let reports = [(1, 1), (24, 80), (4294967295, 7), (25, 1)];
    let mut stream = String::new();
    for (row, col) in reports {
        stream.push_str(&format!("\x1b[{row};{col}R"));
    }
    let want: Vec<CursorReport> = reports
        .iter()
        .map(|&(row, col)| CursorReport::new(row, col))
        .collect();
    assert_eq!(feed_all(stream.as_bytes()), want);
}

#[test]
fn other_control_sequences_change_no_report() {
    let before = b"ab\x1b[3;4Rcd";
    let after = b"ef\x1b[5;6R";
    let want = feed_all(&[&before[..], &after[..]].concat());
    assert_eq!(want, vec![CursorReport::new(3, 4), CursorReport::new(5, 6)]);
    for inert in [
        &b"\x1b[?1;2c"[..],
        b"\x1b[?1;2R",
        b"\x1b[1;2 R",
        b"\x1b[1:2R",
        b"\x1b[7;8H",
        b"\x1b[>0;276;0c",
        b"\x1b[?25;1$y",
        b"\x1b[R",
        b"\x1b[9R",
    ] {
        let stream = [&before[..], inert, &after[..]].concat();
        assert_eq!(feed_all(&stream), want, "{inert:?}");
    }
}

#[test]
fn only_the_complete_report_comes_through() {
    let out = feed_all(b"\x1b[R\x1b[5R\x1b[1;2;3R\x1b[4294967296;1R\x1b[12\x1b[4;8R");
    assert_eq!(out, vec![CursorReport::new(4, 8)]);
}
