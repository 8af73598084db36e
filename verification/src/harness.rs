//! The matrix run: pagination, the sidecar, and the order of a terminal
//! session.
//!
//! A session is a sequence of actions on the outside world (write to the
//! terminal, wait for a reply, touch a marker file), each of which reports back
//! an event. [`Session::advance`] decides the next action; the application
//! performs it.
use crate::catalog::{is_scalar, Candidate};
use crate::dsr::ReportLog;
use crate::pass1::{
    candidate_count, correlate_windows, is_correlation, PageWindow,
};
use crate::render::{
    page_frame, page_text, BOUNDARY, EXPECTED_END_COL_1BASED, MAX_CANDIDATES_PER_PAGE, PAGE_ROWS,
    SENTINEL_LEFT, SENTINEL_RIGHT,
};
use crate::sidecar::{
    Colors, Pass1Report, RowEntry, Sentinels, Sidecar, PASS1_METHOD, SCHEMA_VERSION,
};
use crate::sync::SyncError;
use crate::text::{decimal, push_number, push_str, text_of};
use vstd::prelude::*;
use vstd::slice::slice_subrange;

verus! {

/// Minimum usable viewport width.
pub const MIN_COLS: u16 = 16;

/// Minimum usable viewport height.
pub const MIN_ROWS: u16 = 30;

/// Deadline for the footer handshake on every page, in milliseconds. Generous
/// on purpose: a loaded runner can pause the emulator between page consumption
/// and its reply, and a mid-run timeout discards the whole verification run.
pub const FOOTER_HANDSHAKE_TIMEOUT_MS: u64 = 10_000;

/// End-of-run drain deadline for straggler responses, in milliseconds.
pub const DRAIN_TIMEOUT_MS: u64 = 5_000;

/// Quiescence window that ends the drain early, in milliseconds.
pub const DRAIN_QUIESCENCE_MS: u64 = 300;

// ---------------------------------------------------------------------------
// Failures and exit codes
// ---------------------------------------------------------------------------
/// Fail-fast conditions; every variant terminates the process with code 2.
#[derive(Clone, Debug)]
pub enum FailFast {
    /// No reply to the startup probe.
    HandshakeTimeout,
    /// No reply to a page's footer probe.
    FooterHandshakeTimeout,
    /// Synchronization with the orchestrator failed.
    Ack(SyncError),
    /// Too few candidate rows were answered.
    CircuitBreaker,
    /// The viewport is too small to render into.
    TerminalTooSmall {
        /// Measured rows.
        rows: u16,
        /// Measured columns.
        cols: u16,
    },
}

impl FailFast {
    /// The text of the failure.
    pub open spec fn text(self) -> Seq<char> {
        match self {
            FailFast::HandshakeTimeout => "startup CPR handshake timed out"@,
            FailFast::FooterHandshakeTimeout => "page-end footer handshake timed out"@,
            FailFast::Ack(e) => "orchestrator sync failed: "@ + e.text(),
            FailFast::CircuitBreaker =>
                "circuit breaker: fewer than half of candidate rows received DSR replies"@,
            FailFast::TerminalTooSmall { rows, cols } => "terminal too small: "@ + decimal(
                cols as nat,
            ) + "x"@ + decimal(rows as nat) + ", need >= "@ + decimal(MIN_COLS as nat) + "x"@
                + decimal(MIN_ROWS as nat),
        }
    }

    /// The failure in words.
    pub fn message(&self) -> (s: String)
        ensures
            s@ == self.text(),
    {
        let mut out: Vec<char> = Vec::new();
        match self {
            FailFast::HandshakeTimeout => {
                push_str(&mut out, "startup CPR handshake timed out");
            },
            FailFast::FooterHandshakeTimeout => {
                push_str(&mut out, "page-end footer handshake timed out");
            },
            FailFast::Ack(e) => {
                push_str(&mut out, "orchestrator sync failed: ");
                let m = e.message();
                push_str(&mut out, m.as_str());
            },
            FailFast::CircuitBreaker => {
                push_str(
                    &mut out,
                    "circuit breaker: fewer than half of candidate rows received DSR replies",
                );
            },
            FailFast::TerminalTooSmall { rows, cols } => {
                push_str(&mut out, "terminal too small: ");
                push_number(&mut out, *cols as u64);
                push_str(&mut out, "x");
                push_number(&mut out, *rows as u64);
                push_str(&mut out, ", need >= ");
                push_number(&mut out, MIN_COLS as u64);
                push_str(&mut out, "x");
                push_number(&mut out, MIN_ROWS as u64);
            },
        }
        assert(out@ =~= self.text());
        text_of(out.as_slice())
    }
}

/// How a run of the harness ended.
#[derive(Clone, Debug)]
pub enum RunEnd {
    /// The report was written.
    Success,
    /// The run was given up.
    FailFast(FailFast),
    /// Anything else went wrong.
    Internal,
}

/// Process exit code of a run: 0 success, 2 fail-fast, 1 internal error.
pub fn exit_code(end: &RunEnd) -> (code: u8)
    ensures
        code == match *end {
            RunEnd::Success => 0u8,
            RunEnd::FailFast(_) => 2,
            RunEnd::Internal => 1,
        },
{
    match end {
        RunEnd::Success => 0,
        RunEnd::FailFast(_) => 2,
        RunEnd::Internal => 1,
    }
}

// ---------------------------------------------------------------------------
// Pagination
// ---------------------------------------------------------------------------
/// The page size is out of range.
#[derive(Clone, Copy, Debug, PartialEq, Eq, Structural)]
pub struct BadPageSize;

impl BadPageSize {
    /// The error in words.
    pub fn message(&self) -> (s: String)
        ensures
            s@ == "--page-candidates must be between 1 and "@ + decimal(
                MAX_CANDIDATES_PER_PAGE as nat,
            ),
    {
        let mut out: Vec<char> = Vec::new();
        push_str(&mut out, "--page-candidates must be between 1 and ");
        push_number(&mut out, MAX_CANDIDATES_PER_PAGE as u64);
        assert(out@ =~= "--page-candidates must be between 1 and "@ + decimal(
            MAX_CANDIDATES_PER_PAGE as nat,
        ));
        text_of(out.as_slice())
    }
}

/// Where page `k` ends.
pub open spec fn page_end(k: int, per_page: int, total: int) -> int {
    if (k + 1) * per_page < total {
        (k + 1) * per_page
    } else {
        total
    }
}

/// The catalog cut into pages of `per_page`, the last one with what is left.
pub open spec fn are_pages(
    pages: Seq<&[Candidate]>,
    catalog: Seq<Candidate>,
    per_page: int,
) -> bool {
    &&& forall|k: int|
        0 <= k < pages.len() ==> is_chunk(#[trigger] pages[k]@, catalog, k, per_page)
    &&& pages.len() * per_page >= catalog.len()
}

/// The chunk is page `k` of the catalog, and not empty.
pub open spec fn is_chunk(
    chunk: Seq<Candidate>,
    catalog: Seq<Candidate>,
    k: int,
    per_page: int,
) -> bool {
    &&& k * per_page < catalog.len()
    &&& chunk == catalog.subrange(k * per_page, page_end(k, per_page, catalog.len() as int))
}

/// Cuts the catalog into pages.
pub fn paginate(catalog: &[Candidate], per_page: usize) -> (out: Result<
    Vec<&[Candidate]>,
    BadPageSize,
>)
    ensures
        out is Err <==> per_page == 0 || per_page > MAX_CANDIDATES_PER_PAGE,
        out matches Ok(pages) ==> are_pages(pages@, catalog@, per_page as int),
{
    if per_page == 0 || per_page > MAX_CANDIDATES_PER_PAGE {
        return Err(BadPageSize);
    }
    let n = catalog.len();
    let mut pages: Vec<&[Candidate]> = Vec::new();
    let mut from: usize = 0;
    assert(0 * per_page == 0) by (nonlinear_arith);
    while from < n
        invariant
            n == catalog@.len(),
            1 <= per_page <= MAX_CANDIDATES_PER_PAGE,
            from <= n,
            from < n ==> from == pages@.len() * per_page,
            pages@.len() * per_page >= from,
            forall|k: int|
                0 <= k < pages@.len() ==> is_chunk(
                    #[trigger] pages@[k]@,
                    catalog@,
                    k,
                    per_page as int,
                ),
        decreases n - from,
    {
        let to = if n - from > per_page {
            from + per_page
        } else {
            n
        };
        let ghost k = pages@.len() as int;
        assert((k + 1) * per_page == k * per_page + per_page) by (nonlinear_arith);
        let page = slice_subrange(catalog, from, to);
        assert(is_chunk(page@, catalog@, k, per_page as int));
        pages.push(page);
        from = to;
    }
    Ok(pages)
}

// ---------------------------------------------------------------------------
// Sidecar
// ---------------------------------------------------------------------------
/// The row of a candidate.
pub open spec fn is_row(row: RowEntry, c: Candidate, page_no: u32, row_no: u16) -> bool {
    match row {
        RowEntry::Control { .. } => false,
        RowEntry::Candidate {
            id,
            codepoint,
            block,
            fallback,
            page,
            page_row,
            expected_end_col,
        } => {
            &&& id@ == c.id@
            &&& codepoint == c.codepoint
            &&& block == c.block
            &&& fallback@ == c.fallback@
            &&& page == page_no
            &&& page_row == row_no
            &&& expected_end_col == EXPECTED_END_COL_1BASED
        },
    }
}

/// The rows of one page: the control row, then the candidates from page row 1.
pub open spec fn is_page(rows: Seq<RowEntry>, chunk: Seq<Candidate>, page: u32) -> bool {
    &&& rows.len() == chunk.len() + 1
    &&& rows[0] == (RowEntry::Control { page, page_row: 0 })
    &&& forall|i: int|
        0 <= i < chunk.len() ==> is_row(#[trigger] rows[i + 1], chunk[i], page, (i + 1) as u16)
}

/// The rows of all pages, one page after the other.
pub open spec fn are_rows(rows: Seq<RowEntry>, pages: Seq<&[Candidate]>) -> bool
    decreases pages.len(),
{
    if pages.len() == 0 {
        rows.len() == 0
    } else {
        let from = rows.len() - (pages.last()@.len() + 1);
        &&& 0 <= from
        &&& are_rows(rows.take(from), pages.drop_last())
        &&& is_page(rows.skip(from), pages.last()@, (pages.len() - 1) as u32)
    }
}

/// The sidecar of a render.
pub open spec fn is_sidecar(
    s: Sidecar,
    pages: Seq<&[Candidate]>,
    platform: Seq<char>,
    host: Seq<char>,
) -> bool {
    &&& s.schema_version == SCHEMA_VERSION
    &&& s.platform@ == platform
    &&& s.host@ == host
    &&& s.pass1_support
    &&& s.pass1_method@ == PASS1_METHOD@
    &&& s.sentinels.boundary == BOUNDARY
    &&& s.sentinels.left == SENTINEL_LEFT
    &&& s.sentinels.right == SENTINEL_RIGHT
    &&& s.colors.fg@ == "#c0c0c0"@
    &&& s.colors.bg@ == "#000000"@
    &&& s.page_rows == PAGE_ROWS
    &&& s.pages == pages.len() as u32
    &&& are_rows(s.rows@, pages)
}

fn push_page(rows: &mut Vec<RowEntry>, chunk: &[Candidate], page: u32)
    ensures
        final(rows)@.len() == old(rows)@.len() + chunk@.len() + 1,
        final(rows)@.take(old(rows)@.len() as int) == old(rows)@,
        is_page(final(rows)@.skip(old(rows)@.len() as int), chunk@, page),
{
    let ghost n = old(rows)@.len() as int;
    rows.push(RowEntry::Control { page, page_row: 0 });
    for ri in 0..chunk.len()
        invariant
            n == old(rows)@.len(),
            rows@.len() == n + 1 + ri,
            rows@.take(n) == old(rows)@,
            rows@[n] == (RowEntry::Control { page, page_row: 0 }),
            forall|i: int|
                0 <= i < ri ==> is_row(
                    #[trigger] rows@[n + (i + 1)],
                    chunk@[i],
                    page,
                    (i + 1) as u16,
                ),
    {
        let c = &chunk[ri];
        let ghost before = rows@;
        rows.push(
            RowEntry::Candidate {
                id: c.id.clone(),
                codepoint: c.codepoint,
                block: c.block,
                fallback: c.fallback,
                page,
                page_row: #[verifier::truncate] ((ri + 1) as u16),
                expected_end_col: EXPECTED_END_COL_1BASED,
            },
        );
        assert(rows@.take(n) =~= before.take(n));
        assert forall|i: int| 0 <= i < ri + 1 implies is_row(
            #[trigger] rows@[n + (i + 1)],
            chunk@[i],
            page,
            (i + 1) as u16,
        ) by {
            if i < ri {
                assert(rows@[n + (i + 1)] == before[n + (i + 1)]);
            }
        }
    }
    proof {
        let tail = rows@.skip(n);
        assert forall|i: int| 0 <= i < chunk@.len() implies is_row(
            #[trigger] tail[i + 1],
            chunk@[i],
            page,
            (i + 1) as u16,
        ) by {
            assert(tail[i + 1] == rows@[n + (i + 1)]);
        }
    }
}

/// Lays the pages out as sidecar rows.
pub fn build_rows(pages: &[&[Candidate]], platform: &str, host: &str) -> (s: Sidecar)
    ensures
        is_sidecar(s, pages@, platform@, host@),
{
    let mut rows: Vec<RowEntry> = Vec::new();
    for page in 0..pages.len()
        invariant
            are_rows(rows@, pages@.take(page as int)),
    {
        let ghost before = rows@;
        proof {
            assert(pages@.take(page + 1).drop_last() =~= pages@.take(page as int));
            assert(pages@.take(page + 1).last() == pages@[page as int]);
        }
        push_page(&mut rows, pages[page], #[verifier::truncate] (page as u32));
        assert(rows@.len() - (pages@[page as int]@.len() + 1) == before.len());
    }
    assert(pages@.take(pages@.len() as int) =~= pages@);
    Sidecar {
        schema_version: SCHEMA_VERSION,
        platform: platform.to_owned(),
        host: host.to_owned(),
        pass1_support: true,
        pass1_method: PASS1_METHOD,
        sentinels: Sentinels {
            boundary: BOUNDARY,
            left: SENTINEL_LEFT,
            right: SENTINEL_RIGHT,
        },
        colors: Colors { fg: "#c0c0c0", bg: "#000000" },
        page_rows: PAGE_ROWS,
        pages: #[verifier::truncate] (pages.len() as u32),
        rows,
    }
}

/// The sidecar of a run that was given up: Pass 1 is marked unsupported.
pub fn diagnostic_sidecar(s: Sidecar) -> (d: Sidecar)
    ensures
        d == (Sidecar { pass1_support: false, ..s }),
{
    Sidecar { pass1_support: false, ..s }
}

/// Number of candidate rows.
pub fn count_candidates(rows: &[RowEntry]) -> (n: usize)
    ensures
        n == candidate_count(rows@),
{
    let mut n: usize = 0;
    for i in 0..rows.len()
        invariant
            n == candidate_count(rows@.take(i as int)),
            n <= i,
    {
        assert(rows@.take(i + 1).drop_last() =~= rows@.take(i as int));
        if let RowEntry::Candidate { .. } = &rows[i] {
            n += 1;
        }
    }
    assert(rows@.take(rows@.len() as int) =~= rows@);
    n
}

/// What a self-check prints.
pub fn self_check_line(s: &Sidecar) -> (line: String)
    ensures
        line@ == "self-check: "@ + decimal(candidate_count(s.rows@)) + " candidates across "@
            + decimal(s.pages as nat) + " pages (no terminal interaction)"@,
{
    let mut out: Vec<char> = Vec::new();
    push_str(&mut out, "self-check: ");
    push_number(&mut out, count_candidates(s.rows.as_slice()) as u64);
    push_str(&mut out, " candidates across ");
    push_number(&mut out, s.pages as u64);
    push_str(&mut out, " pages (no terminal interaction)");
    assert(out@ =~= "self-check: "@ + decimal(candidate_count(s.rows@)) + " candidates across "@
        + decimal(s.pages as nat) + " pages (no terminal interaction)"@);
    text_of(out.as_slice())
}

/// What a finished run prints.
pub fn summary_line(report: &Pass1Report) -> (line: String)
    ensures
        line@ == "pass1: "@ + decimal(report.stats.correlated as nat) + "/"@ + decimal(
            report.stats.candidates as nat,
        ) + " correlated, "@ + decimal(report.stats.reports as nat) + " reports"@,
{
    let mut out: Vec<char> = Vec::new();
    push_str(&mut out, "pass1: ");
    push_number(&mut out, report.stats.correlated as u64);
    push_str(&mut out, "/");
    push_number(&mut out, report.stats.candidates as u64);
    push_str(&mut out, " correlated, ");
    push_number(&mut out, report.stats.reports as u64);
    push_str(&mut out, " reports");
    assert(out@ =~= "pass1: "@ + decimal(report.stats.correlated as nat) + "/"@ + decimal(
        report.stats.candidates as nat,
    ) + " correlated, "@ + decimal(report.stats.reports as nat) + " reports"@);
    text_of(out.as_slice())
}

// ---------------------------------------------------------------------------
// The session
// ---------------------------------------------------------------------------
/// What a session is waiting for.
#[derive(Clone, Copy, Debug, PartialEq, Eq, Structural)]
pub enum Phase {
    /// The size of the viewport.
    Size,
    /// The alternate screen has been asked for.
    Open,
    /// The length of the log before the startup probe.
    Baseline,
    /// The startup probe has been sent.
    Probe {
        /// Length of the log before it.
        baseline: usize,
    },
    /// The reply to the startup probe.
    Reply,
    /// The length of the log before a page.
    Window {
        /// 0-based page.
        page: u32,
    },
    /// A page has been sent.
    Page {
        /// 0-based page.
        page: u32,
        /// Length of the log before it.
        from: usize,
    },
    /// The footer reply of a page.
    Footer {
        /// 0-based page.
        page: u32,
    },
    /// A page has been released for capture.
    Ready {
        /// 0-based page.
        page: u32,
    },
    /// The acknowledgment of a page.
    Ack {
        /// 0-based page.
        page: u32,
    },
    /// The markers of a page have been removed.
    Cleanup {
        /// 0-based page.
        page: u32,
    },
    /// Stragglers.
    Drain,
    /// All reports are in.
    Done,
    /// The run was given up.
    Failed,
}

/// What the application reports back.
#[derive(Clone, Debug)]
pub enum Event {
    /// The action succeeded.
    Performed,
    /// The wait ran into its deadline.
    Expired,
    /// The measured viewport.
    Size {
        /// Columns.
        cols: u16,
        /// Rows.
        rows: u16,
    },
    /// The length of the report log.
    Length(usize),
    /// A write or a file operation failed, or an acknowledgment did not come.
    Error(SyncError),
}

/// What the application is to do next.
#[derive(Clone, Debug)]
pub enum Action {
    /// Measure the viewport.
    Measure,
    /// Write the text to the terminal and flush.
    Send(String),
    /// Take the length of the report log.
    Snapshot,
    /// Wait until the report log is longer than the baseline.
    AwaitReply {
        /// The length to exceed.
        baseline: usize,
    },
    /// Wait for the footer reply at index `from` or later.
    AwaitFooter {
        /// Where the page's reports begin.
        from: usize,
    },
    /// Write the page's ready marker.
    SignalReady {
        /// 0-based page.
        page: u32,
    },
    /// Wait for the page's acknowledgment.
    AwaitAck {
        /// 0-based page.
        page: u32,
    },
    /// Remove the page's markers.
    RemoveMarkers {
        /// 0-based page.
        page: u32,
    },
    /// Wait for stragglers.
    Drain,
    /// Correlate.
    Finish,
    /// Give up.
    Fail(FailFast),
}

/// An action with its text taken as characters.
pub ghost enum Act {
    /// Measure the viewport.
    Measure,
    /// Write the text.
    Send(Seq<char>),
    /// Take the length of the log.
    Snapshot,
    /// Wait for growth.
    AwaitReply(usize),
    /// Wait for the footer reply.
    AwaitFooter(usize),
    /// Release a page.
    SignalReady(u32),
    /// Wait for its acknowledgment.
    AwaitAck(u32),
    /// Remove its markers.
    RemoveMarkers(u32),
    /// Wait for stragglers.
    Drain,
    /// Correlate.
    Finish,
    /// Give up.
    Fail(FailFast),
}

impl Action {
    /// The action with its text taken as characters.
    pub open spec fn act(self) -> Act {
        match self {
            Action::Measure => Act::Measure,
            Action::Send(s) => Act::Send(s@),
            Action::Snapshot => Act::Snapshot,
            Action::AwaitReply { baseline } => Act::AwaitReply(baseline),
            Action::AwaitFooter { from } => Act::AwaitFooter(from),
            Action::SignalReady { page } => Act::SignalReady(page),
            Action::AwaitAck { page } => Act::AwaitAck(page),
            Action::RemoveMarkers { page } => Act::RemoveMarkers(page),
            Action::Drain => Act::Drain,
            Action::Finish => Act::Finish,
            Action::Fail(f) => Act::Fail(f),
        }
    }
}

/// The alternate screen with pinned colors.
pub open spec fn open_text() -> Seq<char> {
    "\x1b[?1049h\x1b[?25l\x1b[0;37;40m"@
}

/// The startup probe.
pub open spec fn probe_text() -> Seq<char> {
    "\x1b[1;1H\x1b[6n"@
}

/// An event that the phase can lead to.
pub open spec fn fits(phase: Phase, event: Event) -> bool {
    match phase {
        Phase::Size => event is Size || event is Error,
        Phase::Open | Phase::Probe { .. } | Phase::Page { .. } | Phase::Ready { .. }
        | Phase::Ack { .. } => event is Performed || event is Error,
        Phase::Baseline | Phase::Window { .. } => event is Length,
        Phase::Reply | Phase::Footer { .. } => event is Performed || event is Expired,
        Phase::Cleanup { .. } | Phase::Drain => event is Performed,
        Phase::Done | Phase::Failed => false,
    }
}

/// The first action of a page, or the drain after the last one.
pub open spec fn begin_page(page: int, pages: nat) -> (Phase, Act) {
    if page < pages {
        (Phase::Window { page: page as u32 }, Act::Snapshot)
    } else {
        (Phase::Drain, Act::Drain)
    }
}

/// Giving up.
pub open spec fn give_up(f: FailFast) -> (Phase, Act) {
    (Phase::Failed, Act::Fail(f))
}

/// The next phase and action.
pub open spec fn next(phase: Phase, event: Event, pages: Seq<&[Candidate]>) -> (Phase, Act) {
    match (phase, event) {
        (Phase::Size, Event::Size { cols, rows }) => if cols < MIN_COLS || rows < MIN_ROWS {
            give_up(FailFast::TerminalTooSmall { rows, cols })
        } else {
            (Phase::Open, Act::Send(open_text()))
        },
        (Phase::Size, _) => give_up(FailFast::TerminalTooSmall { rows: 0, cols: 0 }),
        (_, Event::Error(e)) => give_up(FailFast::Ack(e)),
        (Phase::Open, _) => (Phase::Baseline, Act::Snapshot),
        (Phase::Baseline, Event::Length(n)) => (
            Phase::Probe { baseline: n },
            Act::Send(probe_text()),
        ),
        (Phase::Probe { baseline }, _) => (Phase::Reply, Act::AwaitReply(baseline)),
        (Phase::Reply, Event::Expired) => give_up(FailFast::HandshakeTimeout),
        (Phase::Reply, _) => begin_page(0, pages.len()),
        (Phase::Window { page }, Event::Length(n)) => (
            Phase::Page { page, from: n },
            Act::Send(page_text(pages[page as int]@)),
        ),
        (Phase::Page { page, from }, _) => (Phase::Footer { page }, Act::AwaitFooter(from)),
        (Phase::Footer { page }, Event::Expired) => give_up(FailFast::FooterHandshakeTimeout),
        (Phase::Footer { page }, _) => (Phase::Ready { page }, Act::SignalReady(page)),
        (Phase::Ready { page }, _) => (Phase::Ack { page }, Act::AwaitAck(page)),
        (Phase::Ack { page }, _) => (Phase::Cleanup { page }, Act::RemoveMarkers(page)),
        (Phase::Cleanup { page }, _) => begin_page(page + 1, pages.len()),
        _ => (Phase::Done, Act::Finish),
    }
}

/// A page that can be rendered: not over-full, and made of characters.
pub open spec fn page_renders(chunk: Seq<Candidate>) -> bool {
    &&& chunk.len() <= MAX_CANDIDATES_PER_PAGE
    &&& forall|i: int| 0 <= i < chunk.len() ==> is_scalar((#[trigger] chunk[i]).codepoint as int)
}

/// The page that a phase works on, or is about to begin.
pub open spec fn page_of(phase: Phase) -> Option<u32> {
    match phase {
        Phase::Window { page } | Phase::Page { page, .. } | Phase::Footer { page }
        | Phase::Ready { page } | Phase::Ack { page } | Phase::Cleanup { page } => Some(page),
        _ => None,
    }
}

/// One run in a terminal.
#[derive(Debug)]
pub struct Session {
    /// What the session is waiting for.
    pub phase: Phase,
    /// The windows of the pages sent so far.
    pub windows: Vec<PageWindow>,
}

/// Page `i` has window `i`, and the windows follow each other.
pub open spec fn windows_in_order(w: Seq<PageWindow>) -> bool {
    &&& forall|i: int| 0 <= i < w.len() ==> (#[trigger] w[i]).page == i
    &&& forall|i: int, j: int|
        0 <= i <= j < w.len() ==> (#[trigger] w[i]).start <= (#[trigger] w[j]).start
}

impl Session {
    /// Every page sent so far has its window, and the phase is at the page after
    /// them, or at the last one of them.
    pub open spec fn wf(self, pages: Seq<&[Candidate]>) -> bool {
        &&& windows_in_order(self.windows@)
        &&& match self.phase {
            Phase::Window { page } => page == self.windows@.len() && page < pages.len(),
            Phase::Page { .. } | Phase::Footer { .. } | Phase::Ready { .. } | Phase::Ack { .. }
            | Phase::Cleanup { .. } => page_of(self.phase).unwrap() + 1 == self.windows@.len()
                && self.windows@.len() <= pages.len(),
            Phase::Drain | Phase::Done => self.windows@.len() == pages.len(),
            Phase::Failed => true,
            _ => self.windows@.len() == 0,
        }
    }

    /// A session that has done nothing; the first action is to measure the
    /// viewport.
    pub fn new() -> (s: Self)
        ensures
            s.phase == Phase::Size,
            s.windows@ == Seq::<PageWindow>::empty(),
            forall|pages: Seq<&[Candidate]>| #[trigger] s.wf(pages),
    {
        Session { phase: Phase::Size, windows: Vec::new() }
    }

    fn begin(&mut self, page: u32, pages: usize) -> (a: Action)
        ensures
            final(self).phase == begin_page(page as int, pages as nat).0,
            a.act() == begin_page(page as int, pages as nat).1,
            final(self).windows == old(self).windows,
    {
        if (page as u64) < pages as u64 {
            self.phase = Phase::Window { page };
            Action::Snapshot
        } else {
            self.phase = Phase::Drain;
            Action::Drain
        }
    }

    fn fail(&mut self, f: FailFast) -> (a: Action)
        ensures
            final(self).phase == Phase::Failed,
            a.act() == Act::Fail(f),
            final(self).windows == old(self).windows,
    {
        self.phase = Phase::Failed;
        Action::Fail(f)
    }

    /// Decides the next action from what came of the last one.
    ///
    /// The length of the log before a page is taken before the page's queries
    /// are sent, so both the footer handshake and Pass-1 correlation are scoped
    /// to exactly that page's window.
    pub fn advance(&mut self, event: Event, pages: &[&[Candidate]]) -> (action: Action)
        requires
            old(self).wf(pages@),
            fits(old(self).phase, event),
            pages@.len() < u32::MAX,
            forall|k: int| 0 <= k < pages@.len() ==> page_renders(#[trigger] pages@[k]@),
            event matches Event::Length(n) ==> old(self).windows@.len() > 0
                ==> old(self).windows@.last().start <= n,
        ensures
            final(self).wf(pages@),
            final(self).phase == next(old(self).phase, event, pages@).0,
            action.act() == next(old(self).phase, event, pages@).1,
            final(self).windows@ == match (old(self).phase, event) {
                (Phase::Window { page }, Event::Length(n)) => old(self).windows@.push(
                    PageWindow { page, start: n },
                ),
                _ => old(self).windows@,
            },
    {
        match (self.phase, event) {
            (Phase::Size, Event::Size { cols, rows }) => {
                if cols < MIN_COLS || rows < MIN_ROWS {
                    return self.fail(FailFast::TerminalTooSmall { rows, cols });
                }
                self.phase = Phase::Open;
                Action::Send("\x1b[?1049h\x1b[?25l\x1b[0;37;40m".to_owned())
            },
            (Phase::Size, _) => self.fail(FailFast::TerminalTooSmall { rows: 0, cols: 0 }),
            (_, Event::Error(e)) => self.fail(FailFast::Ack(e)),
            (Phase::Open, _) => {
                self.phase = Phase::Baseline;
                Action::Snapshot
            },
            (Phase::Baseline, Event::Length(n)) => {
                self.phase = Phase::Probe { baseline: n };
                Action::Send("\x1b[1;1H\x1b[6n".to_owned())
            },
            (Phase::Probe { baseline }, _) => {
                self.phase = Phase::Reply;
                Action::AwaitReply { baseline }
            },
            (Phase::Reply, Event::Expired) => self.fail(FailFast::HandshakeTimeout),
            (Phase::Reply, _) => self.begin(0, pages.len()),
            (Phase::Window { page }, Event::Length(n)) => {
                assert(page_renders(pages@[page as int]@));
                let text = page_frame(pages[page as usize]);
                self.windows.push(PageWindow { page, start: n });
                self.phase = Phase::Page { page, from: n };
                Action::Send(text)
            },
            (Phase::Page { page, from }, _) => {
                self.phase = Phase::Footer { page };
                Action::AwaitFooter { from }
            },
            (Phase::Footer { .. }, Event::Expired) => self.fail(FailFast::FooterHandshakeTimeout),
            (Phase::Footer { page }, _) => {
                self.phase = Phase::Ready { page };
                Action::SignalReady { page }
            },
            (Phase::Ready { page }, _) => {
                self.phase = Phase::Ack { page };
                Action::AwaitAck { page }
            },
            (Phase::Ack { page }, _) => {
                self.phase = Phase::Cleanup { page };
                Action::RemoveMarkers { page }
            },
            (Phase::Cleanup { page }, _) => self.begin(page + 1, pages.len()),
            _ => {
                self.phase = Phase::Done;
                Action::Finish
            },
        }
    }

    /// Correlates the finished session. Fewer than half the rows answered trips
    /// the circuit breaker.
    pub fn finish(&self, log: &ReportLog, sidecar: &Sidecar) -> (out: Result<
        Pass1Report,
        FailFast,
    >)
        requires
            windows_in_order(self.windows@),
            self.windows@.len() > 0 ==> self.windows@.last().start <= log@.len(),
        ensures
            match out {
                Ok(report) => is_correlation(
                    report,
                    log@,
                    sidecar.rows@,
                    Some(self.windows@),
                ) && !(report.stats.candidates > 0 && report.stats.correlated * 2
                    < report.stats.candidates),
                Err(f) => f == FailFast::CircuitBreaker && exists|report: Pass1Report| #[trigger]
                    is_correlation(
                        report,
                        log@,
                        sidecar.rows@,
                        Some(self.windows@),
                    ) && report.stats.candidates > 0 && report.stats.correlated * 2
                        < report.stats.candidates,
            },
    {
        let report = correlate_windows(log, sidecar, self.windows.as_slice());
        if report.stats.below_half() {
            return Err(FailFast::CircuitBreaker);
        }
        Ok(report)
    }
}

// ---------------------------------------------------------------------------
// Laws
// ---------------------------------------------------------------------------
/// A page is released for capture only after the emulator has proven, by its
/// footer reply, that it consumed the whole page.
pub proof fn pages_are_released_after_their_footer(
    phase: Phase,
    event: Event,
    pages: Seq<&[Candidate]>,
    page: u32,
)
    requires
        fits(phase, event),
        next(phase, event, pages).1 == Act::SignalReady(page),
    ensures
        phase == (Phase::Footer { page }),
        event is Performed,
{
}

/// The next page is begun only after the acknowledgment of the one before it:
/// a page's queries follow the removal of the previous page's markers.
pub proof fn pages_follow_acknowledgments(
    phase: Phase,
    event: Event,
    pages: Seq<&[Candidate]>,
    page: u32,
)
    requires
        fits(phase, event),
        next(phase, event, pages).0 == (Phase::Window { page }),
        page > 0,
        pages.len() < u32::MAX,
    ensures
        phase == (Phase::Cleanup { page: (page - 1) as u32 }),
{
}

/// Every failure and every expired wait ends the session, and nothing else but
/// an undersized viewport does.
pub proof fn failures_end_the_session(phase: Phase, event: Event, pages: Seq<&[Candidate]>)
    requires
        fits(phase, event),
    ensures
        next(phase, event, pages).0 == Phase::Failed <==> {
            ||| event is Error
            ||| event is Expired
            ||| event matches Event::Size { cols, rows } && (cols < MIN_COLS || rows < MIN_ROWS)
        },
        next(phase, event, pages).0 == Phase::Failed <==> next(phase, event, pages).1 is Fail,
{
}

/// Position of a row in a sidecar of full pages: every page takes one row more
/// than it has candidates.
pub open spec fn row_place(page: int, i: int, per_page: int) -> int {
    page * (per_page + 1) + 1 + i
}

/// The whole catalog is rendered, each candidate once, in order: candidate
/// number `i` of page `k` is candidate `k * per_page + i` of the catalog, and
/// its row stands right where the pages before it, with their control rows, end.
pub proof fn every_candidate_has_its_row(
    s: Sidecar,
    pages: Seq<&[Candidate]>,
    catalog: Seq<Candidate>,
    per_page: int,
    k: int,
    i: int,
)
    requires
        1 <= per_page,
        pages.len() <= u32::MAX,
        are_pages(pages, catalog, per_page),
        are_rows(s.rows@, pages),
        0 <= k < pages.len(),
        0 <= i < per_page,
        k * per_page + i < catalog.len(),
    ensures
        s.rows@.len() == catalog.len() + pages.len(),
        row_place(k, i, per_page) < s.rows@.len(),
        s.rows@[k * (per_page + 1)] == (RowEntry::Control { page: k as u32, page_row: 0 }),
        is_row(
            s.rows@[row_place(k, i, per_page)],
            catalog[k * per_page + i],
            k as u32,
            (i + 1) as u16,
        ),
{
    let n = pages.len() as int;
    lemma_rows_before(s.rows@, pages, catalog, per_page);
    lemma_page_place(s.rows@, pages, catalog, per_page, k);
    let from = k * (per_page + 1);
    let chunk = pages[k]@;
    assert(is_chunk(pages[k]@, catalog, k, per_page));
    assert((k + 1) * per_page == k * per_page + per_page) by (nonlinear_arith);
    assert(chunk[i] == catalog[k * per_page + i]);
    let page_rows = s.rows@.subrange(from, from + chunk.len() + 1);
    assert(page_rows[0] == s.rows@[from]);
    assert(is_row(page_rows[i + 1], chunk[i], k as u32, (i + 1) as u16));
    assert(page_rows[i + 1] == s.rows@[row_place(k, i, per_page)]);
}

/// Length of the rows of the first pages.
proof fn lemma_rows_before(
    rows: Seq<RowEntry>,
    pages: Seq<&[Candidate]>,
    catalog: Seq<Candidate>,
    per_page: int,
)
    requires
        1 <= per_page,
        forall|k: int|
            0 <= k < pages.len() ==> is_chunk(#[trigger] pages[k]@, catalog, k, per_page),
        are_rows(rows, pages),
    ensures
        pages.len() > 0 ==> rows.len() == page_end(
            pages.len() - 1,
            per_page,
            catalog.len() as int,
        ) + pages.len(),
        pages.len() == 0 ==> rows.len() == 0,
        pages.len() * per_page >= catalog.len() ==> rows.len() == catalog.len() + pages.len(),
    decreases pages.len(),
{
    let n = pages.len() as int;
    if n > 0 {
        let from = rows.len() - (pages.last()@.len() + 1);
        let init = pages.drop_last();
        assert forall|k: int| 0 <= k < init.len() implies is_chunk(
            #[trigger] init[k]@,
            catalog,
            k,
            per_page,
        ) by {
            assert(is_chunk(pages[k]@, catalog, k, per_page));
        }
        lemma_rows_before(rows.take(from), init, catalog, per_page);
        assert(is_chunk(pages[n - 1]@, catalog, n - 1, per_page));
        assert((n - 1 + 1) * per_page == (n - 1) * per_page + per_page) by (nonlinear_arith);
        if n > 1 {
            assert(page_end(n - 2, per_page, catalog.len() as int) == (n - 1) * per_page);
        } else {
            assert((n - 1) * per_page == 0) by (nonlinear_arith)
                requires
                    n == 1,
            ;
        }
    } else {
        assert(n * per_page == 0) by (nonlinear_arith)
            requires
                n == 0,
        ;
    }
}

/// Where the rows of page `k` stand.
proof fn lemma_page_place(
    rows: Seq<RowEntry>,
    pages: Seq<&[Candidate]>,
    catalog: Seq<Candidate>,
    per_page: int,
    k: int,
)
    requires
        1 <= per_page,
        pages.len() <= u32::MAX,
        forall|j: int|
            0 <= j < pages.len() ==> is_chunk(#[trigger] pages[j]@, catalog, j, per_page),
        are_rows(rows, pages),
        0 <= k < pages.len(),
    ensures
        0 <= k * (per_page + 1),
        k * (per_page + 1) + pages[k]@.len() + 1 <= rows.len(),
        is_page(
            rows.subrange(
                k * (per_page + 1),
                k * (per_page + 1) + pages[k]@.len() + 1,
            ),
            pages[k]@,
            k as u32,
        ),
    decreases pages.len(),
{
    let n = pages.len() as int;
    let from = rows.len() - (pages.last()@.len() + 1);
    let init = pages.drop_last();
    assert forall|j: int| 0 <= j < init.len() implies is_chunk(
        #[trigger] init[j]@,
        catalog,
        j,
        per_page,
    ) by {
        assert(is_chunk(pages[j]@, catalog, j, per_page));
    }
    if k < n - 1 {
        lemma_page_place(rows.take(from), init, catalog, per_page, k);
        let at = k * (per_page + 1);
        assert(rows.take(from).subrange(at, at + pages[k]@.len() + 1) =~= rows.subrange(
            at,
            at + pages[k]@.len() + 1,
        ));
    } else {
        lemma_rows_before(rows.take(from), init, catalog, per_page);
        assert(is_chunk(pages[n - 1]@, catalog, n - 1, per_page));
        assert(k * (per_page + 1) == k * per_page + k) by (nonlinear_arith);
        if n > 1 {
            assert((n - 2 + 1) * per_page == (n - 1) * per_page);
            assert(page_end(n - 2, per_page, catalog.len() as int) == (n - 1) * per_page);
        } else {
            assert(k * per_page == 0) by (nonlinear_arith)
                requires
                    k == 0,
            ;
        }
        assert(rows.subrange(from, rows.len() as int) =~= rows.skip(from));
    }
}

// ---------------------------------------------------------------------------
// What a session writes down and does
// ---------------------------------------------------------------------------
/// The pages cut the catalog into pieces of the asked size: every candidate stands
/// on one, in the order of the catalog, all pages but the last are full, and none
/// is empty.
pub proof fn pages_cut_the_catalog(
    pages: Seq<&[Candidate]>,
    catalog: Seq<Candidate>,
    per_page: int,
    n: int,
    k: int,
)
    requires
        1 <= per_page,
        are_pages(pages, catalog, per_page),
        0 <= n < catalog.len(),
        0 <= k < pages.len(),
    ensures
        0 <= n / per_page < pages.len(),
        n % per_page < pages[n / per_page]@.len(),
        pages[n / per_page]@[n % per_page] == catalog[n],
        1 <= pages[k]@.len() <= per_page,
        k < pages.len() - 1 ==> pages[k]@.len() == per_page,
{
    let total = catalog.len() as int;
    let q = n / per_page;
    assert(n == q * per_page + n % per_page && 0 <= n % per_page < per_page && 0 <= q)
        by (nonlinear_arith)
        requires
            q == n / per_page,
            per_page >= 1,
            n >= 0,
    ;
    assert(q < pages.len()) by (nonlinear_arith)
        requires
            pages.len() * per_page >= total,
            n < total,
            n >= q * per_page,
            per_page >= 1,
    ;
    assert(is_chunk(pages[q]@, catalog, q, per_page));
    assert((q + 1) * per_page == q * per_page + per_page) by (nonlinear_arith);
    assert(is_chunk(pages[k]@, catalog, k, per_page));
    assert((k + 1) * per_page == k * per_page + per_page) by (nonlinear_arith);
    if k < pages.len() - 1 {
        assert(is_chunk(pages[k + 1]@, catalog, k + 1, per_page));
    }
    assert(0 <= k * per_page) by (nonlinear_arith)
        requires
            k >= 0,
            per_page >= 1,
    ;
}

/// Each page has one row without an icon, in its first place, and behind it one
/// row per candidate, in order. A row carries what the catalog says of the
/// candidate, its page, its place, and the column that the cursor must end in.
pub proof fn rows_carry_their_candidates(
    s: Sidecar,
    pages: Seq<&[Candidate]>,
    catalog: Seq<Candidate>,
    per_page: int,
    k: int,
    i: int,
)
    requires
        1 <= per_page <= 23,
        pages.len() <= u32::MAX,
        are_pages(pages, catalog, per_page),
        are_rows(s.rows@, pages),
        0 <= k < pages.len(),
        0 <= i < per_page,
        k * per_page + i < catalog.len(),
    ensures
        s.rows@.len() == catalog.len() + pages.len(),
        k * (per_page + 1) + 1 + i < s.rows@.len(),
        s.rows@[k * (per_page + 1)] matches RowEntry::Control { page, page_row } && page == k
            && page_row == 0,
        ({
            let c = catalog[k * per_page + i];
            &&& s.rows@[k * (per_page + 1) + 1 + i] matches RowEntry::Candidate {
                id,
                codepoint,
                block,
                fallback,
                page,
                page_row,
                expected_end_col,
            }
            &&& id@ == c.id@
            &&& codepoint == c.codepoint
            &&& block == c.block
            &&& fallback@ == c.fallback@
            &&& page == k
            &&& page_row == i + 1
            &&& expected_end_col == 8
        }),
{
    every_candidate_has_its_row(s, pages, catalog, per_page, k, i);
}

/// A sidecar says how the pages were drawn.
pub proof fn sidecars_describe_the_run(
    s: Sidecar,
    pages: Seq<&[Candidate]>,
    platform: Seq<char>,
    host: Seq<char>,
)
    requires
        is_sidecar(s, pages, platform, host),
        pages.len() <= u32::MAX,
    ensures
        s.schema_version == 1,
        s.platform@ == platform,
        s.host@ == host,
        s.pass1_support,
        s.pass1_method@ == "batched-dsr"@,
        s.sentinels.boundary == '|',
        s.sentinels.left == 'A',
        s.sentinels.right == 'B',
        s.colors.fg@ == "#c0c0c0"@,
        s.colors.bg@ == "#000000"@,
        s.page_rows == 24,
        s.pages == pages.len(),
{
}

/// What a session sends, and when. It opens the screen once the terminal has
/// sixteen columns and thirty rows. It asks for the cursor once the screen is open
/// and the replies so far are counted. It draws a page once the replies before it
/// are counted.
pub proof fn text_is_sent_in_three_places(
    phase: Phase,
    event: Event,
    pages: Seq<&[Candidate]>,
    text: Seq<char>,
)
    requires
        fits(phase, event),
    ensures
        next(phase, event, pages).1 == Act::Send(text) <==> {
            ||| phase is Size && (event matches Event::Size { cols, rows } && cols >= 16 && rows
                >= 30) && text == "\x1b[?1049h\x1b[?25l\x1b[0;37;40m"@
            ||| phase is Baseline && text == "\x1b[1;1H\x1b[6n"@
            ||| phase matches Phase::Window { page } && text == page_text(pages[page as int]@)
        },
{
}

/// How a session goes on. A snapshot of the replies is taken behind the opened
/// screen and before each page. The first reply is awaited from the first snapshot
/// on, and each footer from its page's own. A page whose footer came is announced,
/// then acknowledged, then cleaned up, and the next page begins. Behind the last
/// page the replies are drained, and the session is over.
pub proof fn a_session_goes_page_by_page(
    phase: Phase,
    event: Event,
    pages: Seq<&[Candidate]>,
)
    requires
        fits(phase, event),
        pages.len() < u32::MAX,
        page_of(phase) matches Some(page) ==> page < pages.len(),
    ensures
        ({
            let (then, act) = next(phase, event, pages);
            &&& act == Act::Snapshot <==> {
                ||| phase is Open && event is Performed
                ||| phase is Reply && event is Performed && pages.len() > 0
                ||| phase matches Phase::Cleanup { page } && page + 1 < pages.len()
            }
            &&& act == Act::Drain <==> {
                ||| phase is Reply && event is Performed && pages.len() == 0
                ||| phase matches Phase::Cleanup { page } && page + 1 == pages.len()
            }
            &&& act == Act::Finish <==> phase is Drain
            &&& act == Act::Finish <==> then is Done
            &&& act == Act::Drain <==> then is Drain
            &&& act matches Act::AwaitReply(n) ==> phase == (Phase::Probe { baseline: n })
            &&& act matches Act::AwaitFooter(n) ==> (phase matches Phase::Page { from, .. } && from
                == n)
            &&& act matches Act::SignalReady(p) ==> phase == (Phase::Footer { page: p })
            &&& act matches Act::AwaitAck(p) ==> phase == (Phase::Ready { page: p })
            &&& act matches Act::RemoveMarkers(p) ==> phase == (Phase::Ack { page: p })
            &&& event is Performed ==> {
                &&& phase is Probe ==> act is AwaitReply
                &&& phase is Page ==> act is AwaitFooter
                &&& phase is Footer ==> act is SignalReady
                &&& phase is Ready ==> act is AwaitAck
                &&& phase is Ack ==> act is RemoveMarkers
            }
        }),
        ({
            let then = next(phase, event, pages).0;
            &&& then matches Phase::Probe { baseline } ==> event == Event::Length(baseline)
            &&& then matches Phase::Page { page, from } ==> event == Event::Length(from) && phase
                == (Phase::Window { page })
            &&& then matches Phase::Window { page } ==> (page == 0 && phase is Reply || (phase
                matches Phase::Cleanup { page: last } && page == last + 1))
            &&& then matches Phase::Footer { page } ==> (phase matches Phase::Page { page: p, .. }
                && p == page)
            &&& then matches Phase::Ready { page } ==> phase == (Phase::Footer { page })
            &&& then matches Phase::Ack { page } ==> phase == (Phase::Ready { page })
            &&& then matches Phase::Cleanup { page } ==> phase == (Phase::Ack { page })
        }),
{
}

/// Why a session fails: the reason names what was missing.
pub proof fn failures_name_their_reason(
    phase: Phase,
    event: Event,
    pages: Seq<&[Candidate]>,
    why: FailFast,
)
    requires
        fits(phase, event),
        next(phase, event, pages).1 == Act::Fail(why),
    ensures
        match event {
            Event::Size { cols, rows } => (cols < 16 || rows < 30) && (why
                matches FailFast::TerminalTooSmall { rows: r, cols: c } && r == rows && c == cols),
            Event::Expired => if phase is Reply {
                why is HandshakeTimeout
            } else {
                why is FooterHandshakeTimeout
            },
            Event::Error(e) => if phase is Size {
                why matches FailFast::TerminalTooSmall { rows, cols } && rows == 0 && cols == 0
            } else {
                why == FailFast::Ack(e)
            },
            _ => false,
        },
{
}

/// Why a session failed, in words.
pub proof fn failures_read(e: SyncError, rows: u16, cols: u16)
    ensures
        FailFast::HandshakeTimeout.text() == "startup CPR handshake timed out"@,
        FailFast::FooterHandshakeTimeout.text() == "page-end footer handshake timed out"@,
        FailFast::Ack(e).text() == "orchestrator sync failed: "@ + e.text(),
        FailFast::CircuitBreaker.text()
            == "circuit breaker: fewer than half of candidate rows received DSR replies"@,
        (FailFast::TerminalTooSmall { rows, cols }).text() == "terminal too small: "@ + decimal(
            cols as nat,
        ) + "x"@ + decimal(rows as nat) + ", need >= "@ + decimal(16) + "x"@ + decimal(30),
{
}

} // verus!
