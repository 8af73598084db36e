//! Pass-1 correlation: match DSR payloads to candidates by **payload row**,
//! never by arrival order.
//!
//! Each candidate row fires exactly one fire-and-forget cursor query right
//! after its frame is printed, so a valid response for a candidate must report
//! the same physical viewport row, and a column equal to the expected one when,
//! and only when, the glyph advanced exactly one cell.
use crate::dsr::{CursorReport, ReportLog};
use crate::listing::{lemma_listing, lemma_same_listing, listing, lists};
use crate::render::{FOOTER_REPLY_COL_1BASED, FOOTER_ROW_1BASED, PAGE_ROWS};
use crate::sidecar::{Pass1Report, Pass1Result, Pass1Status, RowEntry, Sidecar, PASS1_METHOD};
use vstd::prelude::*;

verus! {

/// Outcome of the end-of-run drain.
#[derive(Clone, Copy, Debug, PartialEq, Eq, Structural)]
pub struct DrainStats {
    /// Reports observed in total (including footer sentinels).
    pub reports: usize,
    /// Candidates that found a correlating payload.
    pub correlated: usize,
    /// Total candidates.
    pub candidates: usize,
}

impl DrainStats {
    /// Circuit-breaker predicate: fewer than half the rows answered means that
    /// the transport is unusable and the run must fail fast.
    pub fn below_half(&self) -> (b: bool)
        ensures
            b == (self.candidates > 0 && self.correlated * 2 < self.candidates),
    {
        self.candidates > 0 && (self.correlated as u128) * 2 < self.candidates as u128
    }
}

/// Where one page's reports begin in the log.
#[derive(Clone, Copy, Debug, PartialEq, Eq, Structural)]
pub struct PageWindow {
    /// 0-based page.
    pub page: u32,
    /// Length of the log before the page's queries were sent.
    pub start: usize,
}

/// What a poll of a waiting loop decides.
#[derive(Clone, Copy, Debug, PartialEq, Eq, Structural)]
pub enum Poll {
    /// What was waited for is there.
    Done,
    /// It is not there and the deadline has passed.
    TimedOut,
    /// It is not there yet.
    Again,
}

/// The poll outcome for a condition and a deadline: the condition is looked at
/// first, so what has arrived counts even at the deadline.
pub open spec fn poll_spec(there: bool, expired: bool) -> Poll {
    if there {
        Poll::Done
    } else if expired {
        Poll::TimedOut
    } else {
        Poll::Again
    }
}

/// Decides one round of a waiting loop.
pub fn poll(there: bool, expired: bool) -> (p: Poll)
    ensures
        p == poll_spec(there, expired),
{
    if there {
        Poll::Done
    } else if expired {
        Poll::TimedOut
    } else {
        Poll::Again
    }
}

/// The reply to the footer probe.
pub open spec fn footer_reply() -> CursorReport {
    CursorReport {
        row_1based: FOOTER_ROW_1BASED as u32,
        col_1based: FOOTER_REPLY_COL_1BASED,
    }
}

/// The footer reply stands in the log at index `from` or later.
pub open spec fn footer_seen(log: Seq<CursorReport>, from: int) -> bool {
    exists|i: int| from <= i < log.len() && #[trigger] log[i] == footer_reply()
}

/// One round of waiting for the footer sentinel reply of a page.
///
/// `from` indexes into the log so only reports emitted during this page's
/// window are considered; nothing is ever discarded from the log.
pub fn poll_footer(log: &ReportLog, from: usize, expired: bool) -> (p: Poll)
    requires
        from <= log@.len(),
    ensures
        p == poll_spec(footer_seen(log@, from as int), expired),
{
    let want = CursorReport::new(FOOTER_ROW_1BASED as u32, FOOTER_REPLY_COL_1BASED);
    match log.find_from(from, want) {
        Some(i) => {
            assert(log@[i as int] == footer_reply());
            poll(true, expired)
        },
        None => poll(false, expired),
    }
}

/// One round of waiting for the log to grow past `baseline`.
pub fn poll_growth(log: &ReportLog, baseline: usize, expired: bool) -> (p: Poll)
    ensures
        p == poll_spec(log@.len() > baseline, expired),
{
    poll(log.reports().len() > baseline, expired)
}

/// Whether the end-of-run drain is over: nothing arrived during a quiescence
/// window, or the deadline has passed.
pub fn drained(before: usize, after: usize, expired: bool) -> (done: bool)
    ensures
        done == (after == before || expired),
{
    after == before || expired
}

// ---------------------------------------------------------------------------
// Correlation
// ---------------------------------------------------------------------------
/// Index of the first report of `row` among the log entries `from..to`, or
/// `to`.
pub open spec fn first_on_row(log: Seq<CursorReport>, row: int, from: int, to: int) -> int
    decreases to - from,
{
    if from >= to || log[from].row0() == row {
        from
    } else {
        first_on_row(log, row, from + 1, to)
    }
}

/// The first report of the row among the log entries `from..to`. Duplicate and
/// stray reports of the row are ignored beyond the first.
pub open spec fn hit(log: Seq<CursorReport>, row: int, from: int, to: int) -> Option<CursorReport> {
    let i = first_on_row(log, row, from, to);
    if i < to {
        Some(log[i])
    } else {
        None
    }
}

/// Status of a candidate by its report.
pub open spec fn status_of(hit: Option<CursorReport>, expected_end_col: u16) -> Pass1Status {
    match hit {
        None => Pass1Status::Inconclusive,
        Some(r) => if r.col_1based == expected_end_col {
            Pass1Status::Pass
        } else {
            Pass1Status::Fail
        },
    }
}

/// The observed column, clamped to the range of the field.
pub open spec fn observed(hit: Option<CursorReport>) -> Option<u16> {
    match hit {
        None => None,
        Some(r) => if r.col_1based <= u16::MAX {
            Some(r.col_1based as u16)
        } else {
            Some(u16::MAX)
        },
    }
}

/// The log entries that belong to a page, as a half-open range.
pub open spec fn window_of(w: Seq<PageWindow>, page: u32, len: int) -> (int, int)
    decreases w.len(),
{
    if w.len() == 0 {
        (0, 0)
    } else if w[0].page == page {
        (w[0].start as int, if w.len() > 1 {
            w[1].start as int
        } else {
            len
        })
    } else {
        window_of(w.skip(1), page, len)
    }
}

/// The windows follow each other inside the log.
pub open spec fn windows_ordered(w: Seq<PageWindow>, len: int) -> bool {
    &&& forall|i: int, j: int|
        0 <= i <= j < w.len() ==> (#[trigger] w[i]).start <= (#[trigger] w[j]).start
    &&& forall|i: int| 0 <= i < w.len() ==> (#[trigger] w[i]).start <= len
}

/// The log entries that may answer a candidate of a page: all of them, or
/// those of the page's window.
pub open spec fn scope_range(w: Option<Seq<PageWindow>>, page: u32, len: int) -> (int, int) {
    match w {
        None => (0, len),
        Some(w) => window_of(w, page, len),
    }
}

/// The report that answers a candidate row.
pub open spec fn answer(log: Seq<CursorReport>, w: Option<Seq<PageWindow>>, page: u32, page_row: u16) -> Option<
    CursorReport,
> {
    let r = scope_range(w, page, log.len() as int);
    hit(log, page_row as int, r.0, r.1)
}

/// The result is the one of the candidate row.
pub open spec fn is_result(r: Pass1Result, row: RowEntry, log: Seq<CursorReport>, w: Option<Seq<PageWindow>>) -> bool {
    match row {
        RowEntry::Control { .. } => false,
        RowEntry::Candidate { id, codepoint, page, page_row, expected_end_col, .. } => {
            let h = answer(log, w, page, page_row);
            &&& r.id@ == id@
            &&& r.codepoint == codepoint
            &&& r.page == page
            &&& r.page_row == page_row
            &&& r.expected_end_col == expected_end_col
            &&& r.observed_col == observed(h)
            &&& r.status == status_of(h, expected_end_col)
        },
    }
}

/// The results are those of the candidate rows, in order.
pub open spec fn are_results(
    v: Seq<Pass1Result>,
    rows: Seq<RowEntry>,
    log: Seq<CursorReport>,
    w: Option<Seq<PageWindow>>,
) -> bool
    decreases rows.len(),
{
    if rows.len() == 0 {
        v.len() == 0
    } else if rows.last() is Control {
        are_results(v, rows.drop_last(), log, w)
    } else {
        &&& v.len() > 0
        &&& is_result(v.last(), rows.last(), log, w)
        &&& are_results(v.drop_last(), rows.drop_last(), log, w)
    }
}

/// How many candidate rows there are.
pub open spec fn candidate_count(rows: Seq<RowEntry>) -> nat
    decreases rows.len(),
{
    if rows.len() == 0 {
        0
    } else {
        candidate_count(rows.drop_last()) + (if rows.last() is Candidate {
            1nat
        } else {
            0
        })
    }
}

/// How many results found a report.
pub open spec fn answered_count(v: Seq<Pass1Result>) -> nat
    decreases v.len(),
{
    if v.len() == 0 {
        0
    } else {
        answered_count(v.drop_last()) + (if v.last().observed_col is Some {
            1nat
        } else {
            0
        })
    }
}

/// The report is the correlation of the sidecar's candidates with the log.
pub open spec fn is_correlation(
    report: Pass1Report,
    log: Seq<CursorReport>,
    rows: Seq<RowEntry>,
    w: Option<Seq<PageWindow>>,
) -> bool {
    &&& report.pass1_support
    &&& report.pass1_method@ == PASS1_METHOD@
    &&& are_results(report.results@, rows, log, w)
    &&& report.stats.reports == log.len()
    &&& report.stats.candidates == candidate_count(rows)
    &&& report.stats.correlated == answered_count(report.results@)
}

/// The windows as a sequence.
pub open spec fn window_views(w: Option<&[PageWindow]>) -> Option<Seq<PageWindow>> {
    match w {
        None => None,
        Some(v) => Some(v@),
    }
}

fn find_window(w: &[PageWindow], page: u32, len: usize) -> (r: (usize, usize))
    requires
        windows_ordered(w@, len as int),
    ensures
        r.0 == window_of(w@, page, len as int).0,
        r.1 == window_of(w@, page, len as int).1,
        r.0 <= r.1 <= len,
{
    let n = w.len();
    assert(w@.skip(0) =~= w@);
    for i in 0..n
        invariant
            n == w@.len(),
            windows_ordered(w@, len as int),
            window_of(w@, page, len as int) == window_of(w@.skip(i as int), page, len as int),
    {
        assert(w@.skip(i as int)[0] == w@[i as int]);
        assert(w@.skip(i as int).skip(1) =~= w@.skip(i + 1));
        if w[i].page == page {
            let end = if n - i > 1 {
                assert(w@.skip(i as int)[1] == w@[i + 1]);
                w[i + 1].start
            } else {
                len
            };
            return (w[i].start, end);
        }
    }
    (0, 0)
}

fn find_hit(log: &[CursorReport], row: u16, from: usize, to: usize) -> (h: Option<CursorReport>)
    requires
        from <= to <= log@.len(),
    ensures
        h == hit(log@, row as int, from as int, to as int),
{
    for i in from..to
        invariant
            from <= to <= log@.len(),
            first_on_row(log@, row as int, from as int, to as int) == first_on_row(
                log@,
                row as int,
                i as int,
                to as int,
            ),
    {
        if log[i].page_row0() == row as u32 {
            return Some(log[i]);
        }
    }
    None
}

fn correlate_rows(reports: &[CursorReport], rows: &[RowEntry], windows: Option<&[PageWindow]>) -> (out: Pass1Report)
    requires
        windows matches Some(w) ==> windows_ordered(w@, reports@.len() as int),
    ensures
        is_correlation(out, reports@, rows@, window_views(windows)),
{
    let mut results: Vec<Pass1Result> = Vec::new();
    let mut correlated: usize = 0;
    let mut total: usize = 0;
    for i in 0..rows.len()
        invariant
            windows matches Some(w) ==> windows_ordered(w@, reports@.len() as int),
            are_results(results@, rows@.take(i as int), reports@, window_views(windows)),
            total == candidate_count(rows@.take(i as int)),
            correlated == answered_count(results@),
            total <= i,
            correlated <= total,
    {
        let ghost before = results@;
        proof {
            assert(rows@.take(i + 1).drop_last() =~= rows@.take(i as int));
            assert(rows@.take(i + 1).last() == rows@[i as int]);
        }
        match &rows[i] {
            RowEntry::Control { .. } => {},
            RowEntry::Candidate { id, codepoint, page, page_row, expected_end_col, .. } => {
                let (from, to) = match windows {
                    None => (0, reports.len()),
                    Some(w) => find_window(w, *page, reports.len()),
                };
                let h = find_hit(reports, *page_row, from, to);
                total += 1;
                let (observed_col, status) = match h {
                    None => (None, Pass1Status::Inconclusive),
                    Some(r) => {
                        correlated += 1;
                        let col: u16 = if r.col_1based <= 0xffff {
                            r.col_1based as u16
                        } else {
                            0xffff
                        };
                        if r.col_1based == *expected_end_col as u32 {
                            (Some(col), Pass1Status::Pass)
                        } else {
                            // The emulator expanded the glyph past one cell.
                            (Some(col), Pass1Status::Fail)
                        }
                    },
                };
                results.push(
                    Pass1Result {
                        id: id.clone(),
                        codepoint: *codepoint,
                        page: *page,
                        page_row: *page_row,
                        expected_end_col: *expected_end_col,
                        observed_col,
                        status,
                    },
                );
                assert(results@.drop_last() =~= before);
                assert(is_result(results@.last(), rows@[i as int], reports@, window_views(windows)));
            },
        }
    }
    assert(rows@.take(rows@.len() as int) =~= rows@);
    Pass1Report {
        pass1_support: true,
        pass1_method: PASS1_METHOD,
        results,
        stats: DrainStats { reports: reports.len(), correlated, candidates: total },
    }
}

/// Correlate every candidate with the accumulated report log.
///
/// Footer replies are excluded from candidate data by construction: they
/// normalize to a page row that no candidate occupies.
pub fn correlate(log: &ReportLog, sidecar: &Sidecar) -> (report: Pass1Report)
    ensures
        is_correlation(report, log@, sidecar.rows@, None),
{
    correlate_rows(log.reports(), sidecar.rows.as_slice(), None)
}

/// Correlate every candidate with the reports of its own page's window.
pub fn correlate_windows(log: &ReportLog, sidecar: &Sidecar, windows: &[PageWindow]) -> (report:
    Pass1Report)
    requires
        windows_ordered(windows@, log@.len() as int),
    ensures
        is_correlation(report, log@, sidecar.rows@, Some(windows@)),
{
    correlate_rows(log.reports(), sidecar.rows.as_slice(), Some(windows))
}

// ---------------------------------------------------------------------------
// Laws
// ---------------------------------------------------------------------------
/// A footer reply never answers a candidate: it normalizes to a row past the
/// last one of a page.
pub proof fn footer_reply_never_answers(
    log: Seq<CursorReport>,
    page_row: int,
    from: int,
    to: int,
)
    requires
        page_row < PAGE_ROWS,
        0 <= from <= to <= log.len(),
        forall|i: int| from <= i < to ==> #[trigger] log[i] == footer_reply(),
    ensures
        hit(log, page_row, from, to) is None,
    decreases to - from,
{
    if from < to {
        assert(log[from] == footer_reply());
        footer_reply_never_answers(log, page_row, from + 1, to);
    }
}

/// No two reports of one row contradict each other.
pub open spec fn rows_agree(log: Seq<CursorReport>) -> bool {
    forall|i: int, j: int|
        0 <= i < log.len() && 0 <= j < log.len() && (#[trigger] log[i]).row0() == (
        #[trigger] log[j]).row0() ==> log[i] == log[j]
}

/// Matching is by payload, never by arrival order: whatever order the reports
/// come in, the correlation is the same, as long as no two reports of one row
/// contradict each other. (Of two that do, the first one counts.)
pub proof fn arrival_order_is_irrelevant(
    log: Seq<CursorReport>,
    other: Seq<CursorReport>,
    rows: Seq<RowEntry>,
    report: Pass1Report,
)
    requires
        log.to_multiset() == other.to_multiset(),
        rows_agree(log),
    ensures
        is_correlation(report, log, rows, None) == is_correlation(report, other, rows, None),
{
    log.to_multiset_ensures();
    other.to_multiset_ensures();
    assert(log.len() == other.len());
    assert forall|row: int| #[trigger]
        hit(log, row, 0, log.len() as int) == hit(other, row, 0, other.len() as int) by {
        lemma_reordered_hit(log, other, row);
    }
    lemma_same_results(report.results@, log, other, rows);
}

proof fn lemma_reordered_hit(log: Seq<CursorReport>, other: Seq<CursorReport>, row: int)
    requires
        log.to_multiset() == other.to_multiset(),
        rows_agree(log),
    ensures
        hit(log, row, 0, log.len() as int) == hit(other, row, 0, other.len() as int),
{
    log.to_multiset_ensures();
    other.to_multiset_ensures();
    let n = log.len() as int;
    assert(other.len() == n);
    lemma_first(log, row, 0, n);
    lemma_first(other, row, 0, n);
    let (i, j) = (first_on_row(log, row, 0, n), first_on_row(other, row, 0, n));
    if i < n {
        assert(log.contains(log[i]));
        assert(other.to_multiset().count(log[i]) > 0);
        assert(other.contains(log[i]));
        let k = choose|k: int| 0 <= k < other.len() && other[k] == log[i];
        assert(other[k].row0() == row);
    }
    if j < n {
        assert(other.contains(other[j]));
        assert(log.to_multiset().count(other[j]) > 0);
        assert(log.contains(other[j]));
        let k = choose|k: int| 0 <= k < log.len() && log[k] == other[j];
        assert(log[k].row0() == row);
        if i < n {
            assert(log[i].row0() == log[k].row0());
        }
    }
}

proof fn lemma_same_results(
    v: Seq<Pass1Result>,
    log: Seq<CursorReport>,
    other: Seq<CursorReport>,
    rows: Seq<RowEntry>,
)
    requires
        forall|row: int| #[trigger]
            hit(log, row, 0, log.len() as int) == hit(other, row, 0, other.len() as int),
    ensures
        are_results(v, rows, log, None) == are_results(v, rows, other, None),
    decreases rows.len(),
{
    if rows.len() > 0 {
        lemma_same_results(v, log, other, rows.drop_last());
        lemma_same_results(v.drop_last(), log, other, rows.drop_last());
    }
}

/// Strays do not matter: a candidate that is answered by a report of its row
/// keeps its answer, whatever reports of other rows arrive before it,
/// between, or not at all.
pub proof fn other_rows_never_shift_an_answer(
    log: Seq<CursorReport>,
    at: int,
    row: int,
    stray: CursorReport,
)
    requires
        0 <= at <= log.len(),
        stray.row0() != row,
    ensures
        hit(log.insert(at, stray), row, 0, log.len() as int + 1) == hit(
            log,
            row,
            0,
            log.len() as int,
        ),
{
    lemma_insert(log, at, row, stray, 0);
}

proof fn lemma_insert(log: Seq<CursorReport>, at: int, row: int, stray: CursorReport, from: int)
    requires
        0 <= from <= at <= log.len(),
        stray.row0() != row,
    ensures
        hit(log.insert(at, stray), row, from, log.len() as int + 1) == hit(
            log,
            row,
            from,
            log.len() as int,
        ),
    decreases at - from,
{
    let longer = log.insert(at, stray);
    if from == at {
        lemma_shift(log, longer, row, at);
    } else {
        assert(longer[from] == log[from]);
        if log[from].row0() != row {
            lemma_insert(log, at, row, stray, from + 1);
        }
    }
}

proof fn lemma_shift(log: Seq<CursorReport>, longer: Seq<CursorReport>, row: int, from: int)
    requires
        0 <= from <= log.len(),
        longer.len() == log.len() + 1,
        forall|i: int| from <= i < log.len() ==> longer[i + 1] == log[i],
    ensures
        hit(longer, row, from + 1, longer.len() as int) == hit(log, row, from, log.len() as int),
    decreases log.len() - from,
{
    if from < log.len() {
        assert(longer[from + 1] == log[from]);
        lemma_shift(log, longer, row, from + 1);
    }
}

/// A candidate passes when, and only when, the first report of its row names
/// the expected column; without a report it is inconclusive, never failed.
pub proof fn pass_means_expected_column(log: Seq<CursorReport>, row: int, col: u16, from: int, to: int)
    requires
        0 <= from <= to <= log.len(),
    ensures
        status_of(hit(log, row, from, to), col) == Pass1Status::Pass <==> exists|i: int|
            from <= i < to && (#[trigger] log[i]).row0() == row && log[i].col_1based == col
                && forall|j: int| from <= j < i ==> (#[trigger] log[j]).row0() != row,
        status_of(hit(log, row, from, to), col) == Pass1Status::Inconclusive <==> forall|i: int|
            from <= i < to ==> (#[trigger] log[i]).row0() != row,
{
    lemma_first(log, row, from, to);
    let k = first_on_row(log, row, from, to);
    if k < to {
        assert(log[k].row0() == row);
    }
}

proof fn lemma_first(log: Seq<CursorReport>, row: int, from: int, to: int)
    requires
        0 <= from <= to <= log.len(),
    ensures
        from <= first_on_row(log, row, from, to) <= to,
        first_on_row(log, row, from, to) < to ==> log[first_on_row(log, row, from, to)].row0()
            == row,
        forall|j: int|
            from <= j < first_on_row(log, row, from, to) ==> (#[trigger] log[j]).row0() != row,
    decreases to - from,
{
    if from < to && log[from].row0() != row {
        lemma_first(log, row, from + 1, to);
    }
}

// ---------------------------------------------------------------------------
// What the correlation says
// ---------------------------------------------------------------------------
/// The reply was sent from the page row: terminals count rows from one, and a row
/// zero stands for the first.
pub open spec fn sent_from(r: CursorReport, page_row: u16) -> bool {
    r.row_1based == page_row + 1 || r.row_1based == 0 && page_row == 0
}

/// Reply `i` is the first one from the page row between the two positions.
pub open spec fn is_first_reply(
    log: Seq<CursorReport>,
    page_row: u16,
    from: int,
    to: int,
    i: int,
) -> bool {
    &&& from <= i < to
    &&& sent_from(log[i], page_row)
    &&& forall|j: int| from <= j < i ==> !sent_from(#[trigger] log[j], page_row)
}

/// The replies that belong to a page: all of them where there are no windows, else
/// those from the start of the page's first window to that of the next one, and to
/// the end where it is the last. A page without a window has none.
pub open spec fn is_window(
    w: Option<Seq<PageWindow>>,
    page: u32,
    len: int,
    from: int,
    to: int,
) -> bool {
    match w {
        None => from == 0 && to == len,
        Some(v) => is_window_of(v, page, len, from, to),
    }
}

/// The replies that belong to a page, by the windows.
pub open spec fn is_window_of(
    v: Seq<PageWindow>,
    page: u32,
    len: int,
    from: int,
    to: int,
) -> bool {
    &&& lacks_window(v, page) ==> from == to
    &&& forall|i: int| #[trigger]
        is_page_window(v, page, i) ==> from == v[i].start && to == window_end(v, i, len)
}

/// No window is the page's.
pub open spec fn lacks_window(v: Seq<PageWindow>, page: u32) -> bool {
    forall|i: int| 0 <= i < v.len() ==> (#[trigger] v[i]).page != page
}

/// Where window `i` ends: at the start of the next one, or at the end of the log.
pub open spec fn window_end(v: Seq<PageWindow>, i: int, len: int) -> int {
    if i + 1 < v.len() {
        v[i + 1].start as int
    } else {
        len
    }
}

/// Window `i` is the first one of the page.
pub open spec fn is_page_window(v: Seq<PageWindow>, page: u32, i: int) -> bool {
    &&& 0 <= i < v.len()
    &&& v[i].page == page
    &&& forall|j: int| 0 <= j < i ==> (#[trigger] v[j]).page != page
}

/// The result carries the candidate row, and what the first reply from that row
/// says: the cursor in the expected column is a pass, in any other one a failure,
/// and no reply is inconclusive.
pub open spec fn carries_the_reply(
    r: Pass1Result,
    row: RowEntry,
    log: Seq<CursorReport>,
    from: int,
    to: int,
) -> bool {
    &&& row matches RowEntry::Candidate { id, codepoint, page, page_row, expected_end_col, .. }
    &&& r.id@ == id@
    &&& r.codepoint == codepoint
    &&& r.page == page
    &&& r.page_row == page_row
    &&& r.expected_end_col == expected_end_col
    &&& (forall|i: int| from <= i < to ==> !sent_from(#[trigger] log[i], page_row))
        ==> r.observed_col is None && r.status is Inconclusive
    &&& forall|i: int| #[trigger]
        is_first_reply(log, page_row, from, to, i) ==> {
            &&& log[i].col_1based <= 65535 ==> r.observed_col == Some(log[i].col_1based as u16)
            &&& log[i].col_1based > 65535 ==> r.observed_col == Some(65535u16)
            &&& log[i].col_1based == expected_end_col ==> r.status is Pass
            &&& log[i].col_1based != expected_end_col ==> r.status is Fail
        }
}

/// The result carries the reply to the candidate row from its page's window.
pub open spec fn answers_its_row(
    r: Pass1Result,
    row: RowEntry,
    log: Seq<CursorReport>,
    w: Option<Seq<PageWindow>>,
) -> bool {
    exists|from: int, to: int| #[trigger]
        is_window(w, row->Candidate_page, log.len() as int, from, to) && carries_the_reply(
            r,
            row,
            log,
            from,
            to,
        )
}

/// The positions of the candidate rows, in ascending order.
pub open spec fn lists_candidates(at: Seq<int>, rows: Seq<RowEntry>) -> bool {
    lists(at, rows.len() as int, |k: int| rows[k] is Candidate)
}

/// The results that have a reply.
pub open spec fn replied(v: Seq<Pass1Result>) -> Set<int> {
    Set::new(|k: int| 0 <= k < v.len() && v[k].observed_col is Some)
}

spec fn candidate_listing(rows: Seq<RowEntry>) -> Seq<int> {
    listing(rows.len() as int, |k: int| rows[k] is Candidate)
}

proof fn lemma_candidate_listing(rows: Seq<RowEntry>)
    ensures
        lists_candidates(candidate_listing(rows), rows),
        rows.len() > 0 ==> candidate_listing(rows) == (if rows.last() is Candidate {
            candidate_listing(rows.drop_last()).push(rows.len() - 1)
        } else {
            candidate_listing(rows.drop_last())
        }),
{
    let f = |k: int| rows[k] is Candidate;
    lemma_listing(rows.len() as int, f);
    if rows.len() > 0 {
        let w = rows.drop_last();
        let g = |k: int| w[k] is Candidate;
        let n = w.len() as int;
        assert forall|k: int| 0 <= k < n implies #[trigger] f(k) == g(k) by {
            assert(w[k] == rows[k]);
        }
        lemma_same_listing(n, f, g);
        assert(f(n) == (rows.last() is Candidate));
    }
}

proof fn lemma_window(w: Seq<PageWindow>, page: u32, len: int)
    ensures
        is_window_of(w, page, len, window_of(w, page, len).0, window_of(w, page, len).1),
    decreases w.len(),
{
    let (from, to) = window_of(w, page, len);
    if w.len() > 0 && w[0].page != page {
        let v = w.skip(1);
        lemma_window(v, page, len);
        if lacks_window(w, page) {
            assert forall|i: int| 0 <= i < v.len() implies (#[trigger] v[i]).page != page by {
                assert(w[i + 1].page != page);
            }
            assert(lacks_window(v, page));
        }
        assert forall|i: int| #[trigger] is_page_window(w, page, i) implies from == w[i].start && to
            == window_end(w, i, len) by {
            assert(i > 0);
            assert(v[i - 1] == w[i]);
            assert forall|j: int| 0 <= j < i - 1 implies (#[trigger] v[j]).page != page by {
                assert(w[j + 1].page != page);
            }
            assert(is_page_window(v, page, i - 1));
            if i + 1 < w.len() {
                assert(v[i] == w[i + 1]);
            }
        }
    } else if w.len() > 0 {
        assert forall|i: int| #[trigger] is_page_window(w, page, i) implies i == 0 by {
            if i > 0 {
                assert(w[0].page != page);
            }
        }
        assert(w[0].page == page);
        assert forall|i: int| #[trigger] is_page_window(w, page, i) implies from == w[i].start && to
            == window_end(w, i, len) by {
            assert(i == 0);
        }
        assert(is_window_of(w, page, len, from, to));
    } else {
        assert(is_window_of(w, page, len, from, to));
    }
}

proof fn lemma_window_inside(w: Seq<PageWindow>, page: u32, len: int)
    requires
        windows_ordered(w, len),
        0 <= len,
    ensures
        0 <= window_of(w, page, len).0 <= window_of(w, page, len).1 <= len,
    decreases w.len(),
{
    if w.len() > 0 && w[0].page != page {
        let v = w.skip(1);
        assert forall|i: int, j: int| 0 <= i <= j < v.len() implies (#[trigger] v[i]).start <= (
        #[trigger] v[j]).start by {
            assert(w[i + 1].start <= w[j + 1].start);
        }
        assert forall|i: int| 0 <= i < v.len() implies (#[trigger] v[i]).start <= len by {
            assert(w[i + 1].start <= len);
        }
        lemma_window_inside(v, page, len);
    } else if w.len() > 1 {
        assert(w[0].start <= w[1].start);
    }
}

proof fn lemma_answer(
    r: Pass1Result,
    row: RowEntry,
    log: Seq<CursorReport>,
    w: Option<Seq<PageWindow>>,
)
    requires
        is_result(r, row, log, w),
        w matches Some(v) ==> windows_ordered(v, log.len() as int),
    ensures
        answers_its_row(r, row, log, w),
{
    let len = log.len() as int;
    let page = row->Candidate_page;
    let page_row = row->Candidate_page_row;
    let (from, to) = scope_range(w, page, len);
    match w {
        None => {},
        Some(v) => {
            lemma_window(v, page, len);
            lemma_window_inside(v, page, len);
        },
    }
    assert(is_window(w, page, len, from, to));
    lemma_first(log, page_row as int, from, to);
    let i = first_on_row(log, page_row as int, from, to);
    assert forall|j: int| true implies sent_from(#[trigger] log[j], page_row) == (log[j].row0()
        == page_row) by {}
    if i < to {
        assert(sent_from(log[i], page_row));
    }
    assert forall|k: int| #[trigger] is_first_reply(log, page_row, from, to, k) implies k == i by {
        if k < i {
            assert(log[k].row0() != page_row);
        }
        if i < k {
            assert(!sent_from(log[i], page_row));
        }
    }
    assert(carries_the_reply(r, row, log, from, to));
}

proof fn lemma_answers(
    v: Seq<Pass1Result>,
    rows: Seq<RowEntry>,
    log: Seq<CursorReport>,
    w: Option<Seq<PageWindow>>,
)
    requires
        are_results(v, rows, log, w),
        w matches Some(x) ==> windows_ordered(x, log.len() as int),
    ensures
        v.len() == candidate_listing(rows).len() == candidate_count(rows),
        forall|k: int|
            0 <= k < v.len() ==> answers_its_row(
                #[trigger] v[k],
                rows[candidate_listing(rows)[k]],
                log,
                w,
            ),
    decreases rows.len(),
{
    let at = candidate_listing(rows);
    lemma_candidate_listing(rows);
    if rows.len() > 0 {
        let init = rows.drop_last();
        lemma_candidate_listing(init);
        let before = candidate_listing(init);
        if rows.last() is Control {
            lemma_answers(v, init, log, w);
            assert forall|k: int| 0 <= k < v.len() implies answers_its_row(
                #[trigger] v[k],
                rows[at[k]],
                log,
                w,
            ) by {
                assert(0 <= before[k] < init.len());
                assert(init[before[k]] == rows[before[k]]);
            }
        } else {
            let u = v.drop_last();
            lemma_answers(u, init, log, w);
            lemma_answer(v.last(), rows.last(), log, w);
            assert forall|k: int| 0 <= k < v.len() implies answers_its_row(
                #[trigger] v[k],
                rows[at[k]],
                log,
                w,
            ) by {
                if k < u.len() {
                    assert(answers_its_row(u[k], init[before[k]], log, w));
                    assert(0 <= before[k] < init.len());
                } else {
                    assert(at[k] == rows.len() - 1);
                }
            }
        }
    } else {
        assert(at.len() == 0);
    }
}

proof fn lemma_replied(v: Seq<Pass1Result>)
    ensures
        replied(v).finite(),
        answered_count(v) == replied(v).len(),
    decreases v.len(),
{
    if v.len() == 0 {
        assert(replied(v) =~= Set::empty());
    } else {
        let u = v.drop_last();
        lemma_replied(u);
        if v.last().observed_col is Some {
            assert(replied(v) =~= replied(u).insert(v.len() - 1));
        } else {
            assert(replied(v) =~= replied(u));
        }
    }
}

/// A correlation has one result per candidate row, in the order of the rows, and
/// each carries the first reply from its row inside the window of its page. The
/// counts are those of the replies, of the candidate rows and of the results with a
/// reply.
pub proof fn every_row_is_answered_by_its_first_reply(
    report: Pass1Report,
    log: Seq<CursorReport>,
    rows: Seq<RowEntry>,
    w: Option<Seq<PageWindow>>,
)
    requires
        is_correlation(report, log, rows, w),
        w matches Some(v) ==> windows_ordered(v, log.len() as int),
    ensures
        report.pass1_support,
        report.pass1_method@ == "batched-dsr"@,
        report.stats.reports == log.len(),
        report.stats.candidates == report.results@.len(),
        replied(report.results@).finite(),
        report.stats.correlated == replied(report.results@).len(),
        exists|at: Seq<int>| #[trigger]
            lists_candidates(at, rows) && at.len() == report.results@.len() && forall|k: int|
                0 <= k < at.len() ==> answers_its_row(
                    report.results@[k],
                    rows[#[trigger] at[k]],
                    log,
                    w,
                ),
{
    let v = report.results@;
    lemma_answers(v, rows, log, w);
    lemma_replied(v);
    lemma_candidate_listing(rows);
    let at = candidate_listing(rows);
    assert forall|k: int| 0 <= k < at.len() implies answers_its_row(
        v[k],
        rows[#[trigger] at[k]],
        log,
        w,
    ) by {
        assert(answers_its_row(v[k], rows[at[k]], log, w));
    }
    assert(lists_candidates(at, rows));
}

/// Waiting ends as soon as what is waited for is there, and only then by the clock.
pub proof fn waiting_ends_with_what_it_waits_for(log: Seq<CursorReport>, from: int, expired: bool)
    requires
        0 <= from <= log.len(),
    ensures
        poll_spec(true, expired) is Done,
        poll_spec(false, true) is TimedOut,
        poll_spec(false, false) is Again,
        footer_seen(log, from) <==> exists|i: int|
            from <= i < log.len() && (#[trigger] log[i]).row_1based == 25 && log[i].col_1based == 1,
{
    if footer_seen(log, from) {
        let i = choose|i: int| from <= i < log.len() && #[trigger] log[i] == footer_reply();
        assert(log[i].row_1based == 25 && log[i].col_1based == 1);
    }
    if exists|i: int|
        from <= i < log.len() && (#[trigger] log[i]).row_1based == 25 && log[i].col_1based == 1 {
        let i = choose|i: int|
            from <= i < log.len() && (#[trigger] log[i]).row_1based == 25 && log[i].col_1based == 1;
        assert(log[i] == footer_reply());
    }
}

} // verus!
