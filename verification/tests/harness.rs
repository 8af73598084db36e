use term_icon::catalog::{candidates, Candidate};
use term_icon::dsr::ReportLog;
use term_icon::harness::{
    build_rows, count_candidates, diagnostic_sidecar, exit_code, paginate, self_check_line,
    summary_line, Action, BadPageSize, Event, FailFast, Phase, RunEnd, Session,
};
use term_icon::pass1::correlate;
use term_icon::render::{begin_stream, page_frame};
use term_icon::sidecar::RowEntry;
use term_icon::sync::{SyncChannel, SyncError};

#[test]
fn the_catalog_fills_twenty_three_pages() {
    let all = candidates();
    let pages = paginate(&all, 23).unwrap();
    assert_eq!(pages.len(), 23);
    assert!(pages[..22].iter().all(|p| p.len() == 23));
    assert_eq!(pages[22].len(), 3);
    let back: Vec<&str> = pages
        .iter()
        .flat_map(|p| p.iter().map(|c| c.id.as_str()))
        .collect();
    let ids: Vec<&str> = all.iter().map(|c| c.id.as_str()).collect();
    assert_eq!(back, ids);
}

#[test]
fn page_sizes_out_of_range_are_refused() {
    let all = candidates();
    assert_eq!(paginate(&all, 0), Err(BadPageSize));
    assert_eq!(paginate(&all, 24), Err(BadPageSize));
    assert!(paginate(&all, 1).is_ok());
    assert!(BadPageSize.message().contains("23"));
}

#[test]
fn every_page_has_a_control_row_and_its_candidates() {
    let all = candidates();
    let pages = paginate(&all[..5], 3).unwrap();
    let sc = build_rows(&pages, "linux/xterm", "xterm");
    assert_eq!(sc.pages, 2);
    assert_eq!(sc.page_rows, 24);
    assert!(sc.pass1_support);
    assert_eq!(sc.platform, "linux/xterm");
    assert_eq!(sc.rows.len(), 7);
    assert_eq!(count_candidates(&sc.rows), 5);
    match (&sc.rows[4], &sc.rows[5]) {
        (
            RowEntry::Control { page, page_row },
            RowEntry::Candidate {
                id,
                page: p,
                page_row: r,
                expected_end_col,
                ..
            },
        ) => {
            assert_eq!((*page, *page_row), (1, 0));
            assert_eq!((id.as_str(), *p, *r), ("ascii_0024", 1, 1));
            assert_eq!(*expected_end_col, 8);
        }
        _ => panic!("unexpected rows"),
    }
    assert_eq!(
        self_check_line(&sc),
        "self-check: 5 candidates across 2 pages (no terminal interaction)"
    );
    assert!(!diagnostic_sidecar(sc).pass1_support);
}

#[test]
fn exit_codes_tell_failures_apart() {
    assert_eq!(exit_code(&RunEnd::Success), 0);
    assert_eq!(exit_code(&RunEnd::FailFast(FailFast::CircuitBreaker)), 2);
    assert_eq!(exit_code(&RunEnd::Internal), 1);
}

#[test]
fn failures_read_as_text() {
    assert_eq!(
        FailFast::HandshakeTimeout.message(),
        "startup CPR handshake timed out"
    );
    assert_eq!(
        FailFast::FooterHandshakeTimeout.message(),
        "page-end footer handshake timed out"
    );
    assert_eq!(
        FailFast::TerminalTooSmall { rows: 24, cols: 80 }.message(),
        "terminal too small: 80x24, need >= 16x30"
    );
    assert_eq!(
        FailFast::Ack(SyncError::AckTimeout {
            path: "/tmp/x.ack".into()
        })
        .message(),
        "orchestrator sync failed: ack timeout waiting for /tmp/x.ack"
    );
    assert_eq!(
        SyncError::Io {
            path: "/tmp/x".into(),
            source: "denied".into()
        }
        .message(),
        "io error on /tmp/x: denied"
    );
    assert!(FailFast::CircuitBreaker.message().contains("half"));
}

#[test]
fn markers_carry_process_and_page() {
    let channel = SyncChannel::new("/tmp/sync".into(), 4711);
    assert_eq!(channel.dir(), "/tmp/sync");
    assert_eq!(channel.ready_name(3), "term_icon_4711_page_3.ready");
    assert_eq!(channel.ack_name(3), "term_icon_4711_page_3.ack");
    assert_ne!(channel.ready_name(3), channel.ready_name(4));
}

fn sent(a: &Action) -> &str {
    match a {
        Action::Send(s) => s,
        _ => panic!("expected a write, got {a:?}"),
    }
}

fn startup(s: &mut Session, pages: &[&[Candidate]]) -> Action {
    let a = s.advance(
        Event::Size {
            cols: 80,
            rows: 30,
        },
        pages,
    );
    assert_eq!(sent(&a).as_bytes(), begin_stream());
    assert!(matches!(s.advance(Event::Performed, pages), Action::Snapshot));
    let a = s.advance(Event::Length(0), pages);
    assert_eq!(sent(&a), "\x1b[1;1H\x1b[6n");
    assert!(matches!(
        s.advance(Event::Performed, pages),
        Action::AwaitReply { baseline: 0 }
    ));
    s.advance(Event::Performed, pages)
}

#[test]
fn a_session_walks_its_pages() {
    let all = candidates();
    let pages = paginate(&all[..3], 2).unwrap();
    let sc = build_rows(&pages, "linux/xterm", "xterm");
    let mut s = Session::new();
    assert!(matches!(startup(&mut s, &pages), Action::Snapshot));
    let mut log = ReportLog::new();
    log.feed(b"\x1b[1;1R");
    for page in 0..2u32 {
        let from = log.reports().len();
        let a = s.advance(Event::Length(from), &pages);
        assert_eq!(sent(&a), page_frame(pages[page as usize]));
        assert!(
            matches!(s.advance(Event::Performed, &pages), Action::AwaitFooter { from: f } if f == from)
        );
        log.feed(b"\x1b[2;8R");
        if page == 0 {
            log.feed(b"\x1b[3;8R");
        }
        log.feed(b"\x1b[25;1R");
        assert!(
            matches!(s.advance(Event::Performed, &pages), Action::SignalReady { page: p } if p == page)
        );
        assert!(
            matches!(s.advance(Event::Performed, &pages), Action::AwaitAck { page: p } if p == page)
        );
        assert!(
            matches!(s.advance(Event::Performed, &pages), Action::RemoveMarkers { page: p } if p == page)
        );
        let a = s.advance(Event::Performed, &pages);
        if page == 0 {
            assert!(matches!(a, Action::Snapshot));
        } else {
            assert!(matches!(a, Action::Drain));
        }
    }
    assert!(matches!(s.advance(Event::Performed, &pages), Action::Finish));
    assert_eq!(s.phase, Phase::Done);
    let report = s.finish(&log, &sc).unwrap();
    assert_eq!(report.stats.correlated, 3);
    assert_eq!(
        summary_line(&report),
        format!("pass1: 3/3 correlated, {} reports", log.reports().len())
    );
}

#[test]
fn small_viewports_end_the_session() {
    let mut s = Session::new();
    let a = s.advance(Event::Size { cols: 15, rows: 30 }, &[]);
    assert!(matches!(
        a,
        Action::Fail(FailFast::TerminalTooSmall { rows: 30, cols: 15 })
    ));
    assert_eq!(s.phase, Phase::Failed);
}

#[test]
fn unanswered_probes_end_the_session() {
    let all = candidates();
    let pages = paginate(&all[..1], 1).unwrap();
    let mut s = Session::new();
    s.advance(Event::Size { cols: 80, rows: 30 }, &pages);
    s.advance(Event::Performed, &pages);
    s.advance(Event::Length(0), &pages);
    s.advance(Event::Performed, &pages);
    assert!(matches!(
        s.advance(Event::Expired, &pages),
        Action::Fail(FailFast::HandshakeTimeout)
    ));

    let mut s = Session::new();
    startup(&mut s, &pages);
    s.advance(Event::Length(1), &pages);
    s.advance(Event::Performed, &pages);
    assert!(matches!(
        s.advance(Event::Expired, &pages),
        Action::Fail(FailFast::FooterHandshakeTimeout)
    ));
}

#[test]
fn missing_acknowledgments_end_the_session() {
    let all = candidates();
    let pages = paginate(&all[..1], 1).unwrap();
    let mut s = Session::new();
    startup(&mut s, &pages);
    s.advance(Event::Length(1), &pages);
    s.advance(Event::Performed, &pages);
    s.advance(Event::Performed, &pages);
    s.advance(Event::Performed, &pages);
    let a = s.advance(
        Event::Error(SyncError::AckTimeout {
            path: "p.ack".into(),
        }),
        &pages,
    );
    assert!(matches!(
        a,
        Action::Fail(FailFast::Ack(SyncError::AckTimeout { .. }))
    ));
}

#[test]
fn silent_rows_trip_the_circuit_breaker() {
    let all = candidates();
    let pages = paginate(&all[..3], 3).unwrap();
    let sc = build_rows(&pages, "linux/xterm", "xterm");
    let mut log = ReportLog::new();
    log.feed(b"\x1b[2;8R");
    let s = Session {
        phase: Phase::Done,
        windows: vec![term_icon::pass1::PageWindow { page: 0, start: 0 }],
    };
    assert!(matches!(
        s.finish(&log, &sc),
        Err(FailFast::CircuitBreaker)
    ));
    assert_eq!(correlate(&log, &sc).stats.correlated, 1);
}
