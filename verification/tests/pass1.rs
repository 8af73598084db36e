use term_icon::catalog::Block;
use term_icon::dsr::ReportLog;
use term_icon::pass1::{
    correlate, correlate_windows, drained, poll, poll_footer, poll_growth, DrainStats, PageWindow,
    Poll,
};
use term_icon::sidecar::{Colors, Pass1Status, RowEntry, Sentinels, Sidecar};

fn sidecar_with(rows: Vec<RowEntry>) -> Sidecar {
    Sidecar {
        schema_version: 1,
        platform: "test".into(),
        host: "xterm".into(),
        pass1_support: true,
        pass1_method: "batched-dsr",
        sentinels: Sentinels {
            boundary: '|',
            left: 'A',
            right: 'B',
        },
        colors: Colors {
            fg: "#c0c0c0",
            bg: "#000000",
        },
        page_rows: 24,
        pages: 1,
        rows,
    }
}

fn cand(id: &str, page: u32, page_row: u16) -> RowEntry {
    RowEntry::Candidate {
        id: id.into(),
        codepoint: 0x2502,
        block: Block::BoxDrawing,
        fallback: "|",
        page,
        page_row,
        expected_end_col: 8,
    }
}

#[test]
fn pass_when_payload_matches_expected_column() {
    let sc = sidecar_with(vec![cand("box_2502", 0, 3)]);
    let mut log = ReportLog::new();
    log.feed(b"\x1b[4;8R"); // physical row 4 → page_row 3, col 8 ✓
    let report = correlate(&log, &sc);
    assert_eq!(report.results[0].status, Pass1Status::Pass);
    assert_eq!(report.results[0].observed_col, Some(8));
}

#[test]
fn fail_on_width_expansion() {
    let sc = sidecar_with(vec![cand("wide", 0, 3)]);
    let mut log = ReportLog::new();
    log.feed(b"\x1b[4;9R"); // one cell too far: 2-cell glyph
    assert_eq!(correlate(&log, &sc).results[0].status, Pass1Status::Fail);
}

#[test]
fn inconclusive_when_response_missing() {
    let sc = sidecar_with(vec![cand("box_2502", 0, 3), cand("box_2500", 0, 4)]);
    let mut log = ReportLog::new();
    log.feed(b"\x1b[5;8R"); // answers row 4 only
    let report = correlate(&log, &sc);
    assert_eq!(report.results[0].status, Pass1Status::Inconclusive);
    assert_eq!(report.results[1].status, Pass1Status::Pass);
}

#[test]
fn stray_da_report_cannot_desynchronize() {
    let sc = sidecar_with(vec![cand("box_2502", 0, 0)]);
    let mut log = ReportLog::new();
    log.feed(b"\x1b[?1;2c\x1b[1;8R\x1b[6;3R");
    assert_eq!(correlate(&log, &sc).results[0].status, Pass1Status::Pass);
}

#[test]
fn dropped_middle_response_does_not_shift_correlation() {
    // Responses arrive out of order relative to emission; payload-row
    // matching is immune to drops of any single report.
    let sc = sidecar_with(vec![cand("a", 0, 1), cand("b", 0, 2), cand("c", 0, 3)]);
    let mut log = ReportLog::new();
    log.feed(b"\x1b[2;8R"); // a ✓
    log.feed(b"\x1b[4;8R"); // c ✓ (b's report dropped entirely)
    let report = correlate(&log, &sc);
    assert_eq!(report.results[0].status, Pass1Status::Pass);
    assert_eq!(report.results[1].status, Pass1Status::Inconclusive);
    assert_eq!(report.results[2].status, Pass1Status::Pass);
}

#[test]
fn footer_reply_never_correlates_to_candidates() {
    let sc = sidecar_with(vec![cand("box_2502", 0, 23)]);
    let mut log = ReportLog::new();
    // Candidate never answered; only the footer reply exists.
    log.feed(b"\x1b[25;1R");
    assert_eq!(
        correlate(&log, &sc).results[0].status,
        Pass1Status::Inconclusive
    );
}

#[test]
fn circuit_breaker_thresholds() {
    let stats = |correlated, candidates| DrainStats {
        reports: 0,
        correlated,
        candidates,
    };
    assert!(!stats(10, 20).below_half());
    assert!(stats(9, 20).below_half());
    assert!(!stats(0, 0).below_half());
}

#[test]
fn statistics_count_answered_rows() {
    let sc = sidecar_with(vec![
        RowEntry::Control {
            page: 0,
            page_row: 0,
        },
        cand("a", 0, 1),
        cand("b", 0, 2),
        cand("c", 0, 3),
    ]);
    let mut log = ReportLog::new();
    log.feed(b"\x1b[2;8R\x1b[3;9R\x1b[25;1R");
    let report = correlate(&log, &sc);
    assert_eq!(report.results.len(), 3);
    assert_eq!(report.stats.reports, 3);
    // A row that answered with the wrong column has answered.
    assert_eq!(report.stats.correlated, 2);
    assert_eq!(report.stats.candidates, 3);
}

#[test]
fn windows_keep_pages_apart() {
    let sc = sidecar_with(vec![cand("a", 0, 1), cand("b", 1, 1)]);
    let mut log = ReportLog::new();
    log.feed(b"\x1b[2;8R\x1b[25;1R"); // page 0
    log.feed(b"\x1b[2;9R\x1b[25;1R"); // page 1
    let windows = [
        PageWindow { page: 0, start: 0 },
        PageWindow { page: 1, start: 2 },
    ];
    let report = correlate_windows(&log, &sc, &windows);
    assert_eq!(report.results[0].observed_col, Some(8));
    assert_eq!(report.results[0].status, Pass1Status::Pass);
    assert_eq!(report.results[1].observed_col, Some(9));
    assert_eq!(report.results[1].status, Pass1Status::Fail);
}

#[test]
fn what_has_arrived_counts_at_the_deadline() {
    assert_eq!(poll(true, true), Poll::Done);
    assert_eq!(poll(false, true), Poll::TimedOut);
    assert_eq!(poll(false, false), Poll::Again);
}

#[test]
fn footers_are_looked_for_in_their_window() {
    let mut log = ReportLog::new();
    log.feed(b"\x1b[25;1R");
    assert_eq!(poll_footer(&log, 0, false), Poll::Done);
    assert_eq!(poll_footer(&log, 1, false), Poll::Again);
    assert_eq!(poll_footer(&log, 1, true), Poll::TimedOut);
    assert_eq!(poll_growth(&log, 0, false), Poll::Done);
    assert_eq!(poll_growth(&log, 1, false), Poll::Again);
}

#[test]
fn silence_or_the_deadline_ends_the_drain() {
    assert!(drained(4, 4, false));
    assert!(drained(4, 5, true));
    assert!(!drained(4, 5, false));
}

#[test]
fn any_arrival_order_gives_the_same_results() {
    let sc = sidecar_with(vec![cand("a", 0, 1), cand("b", 0, 2), cand("c", 0, 3)]);
    let replies: [&[u8]; 3] = [b"\x1b[2;8R", b"\x1b[3;9R", b"\x1b[25;1R"];
    let orders = [
        [0, 1, 2],
        [0, 2, 1],
        [1, 0, 2],
        [1, 2, 0],
        [2, 0, 1],
        [2, 1, 0],
    ];
    for order in orders {
        let mut log = ReportLog::new();
        for k in order {
            log.feed(replies[k]);
        }
        let report = correlate(&log, &sc);
        let seen: Vec<Pass1Status> = report.results.iter().map(|r| r.status).collect();
        assert_eq!(
            seen,
            [Pass1Status::Pass, Pass1Status::Fail, Pass1Status::Inconclusive],
            "{order:?}"
        );
    }
}
