//! Byte-level DSR (Device Status Report) parsing.
//!
//! Terminal emulators answer `ESC [6n` with raw cursor-position reports
//! (`ESC [{row};{col}R`) that carry **no newline terminator** and may be
//! interleaved with unrelated reports (e.g. primary DA replies `ESC [?1;2c`).
//! Line-oriented input would deadlock or corrupt the stream, so all parsing
//! operates on raw bytes through a minimal CSI state machine.
//!
//! Coordinates inside a [`CursorReport`] are the terminal's 1-based payload
//! values; normalization to 0-based page-relative rows happens once, in
//! [`CursorReport::page_row0`].
use crate::text::{
    decimal, digit_value, find_char, index_from, numeral_reads_back, parse_u32, read_u32,
    slice_chars,
};
use vstd::prelude::*;

verus! {

/// A parsed cursor position report.
#[derive(Clone, Copy, Debug, PartialEq, Eq, Structural)]
pub struct CursorReport {
    /// 1-based physical viewport row, exactly as reported by the emulator.
    pub row_1based: u32,
    /// 1-based column, exactly as reported by the emulator.
    pub col_1based: u32,
}

impl CursorReport {
    /// Convenience constructor for tests and sentinels.
    pub fn new(row_1based: u32, col_1based: u32) -> (r: Self)
        ensures
            r == (CursorReport { row_1based, col_1based }),
    {
        CursorReport { row_1based, col_1based }
    }

    /// The 0-based page-relative row of the payload.
    pub open spec fn row0(self) -> int {
        if self.row_1based == 0 {
            0
        } else {
            self.row_1based - 1
        }
    }

    /// Normalize the 1-based payload row to a 0-based page-relative row.
    ///
    /// Single conversion point for the entire pipeline: everything internal is
    /// 0-based, everything on the wire (DSR payloads, CUP parameters) is
    /// 1-based.
    pub fn page_row0(&self) -> (r: u32)
        ensures
            r == self.row0(),
    {
        if self.row_1based == 0 {
            0
        } else {
            self.row_1based - 1
        }
    }
}

/// Where the parser stands inside an escape sequence.
#[derive(Clone, Copy, Debug, PartialEq, Eq, Structural)]
pub enum State {
    /// Outside any sequence.
    Ground,
    /// After an escape byte.
    Esc,
    /// In a control sequence with a private marker.
    CsiPrivate,
    /// In the parameters of a control sequence.
    CsiParams,
    /// In a control sequence with intermediate bytes.
    CsiIntermediate,
}

// ---------------------------------------------------------------------------
// The state machine
// ---------------------------------------------------------------------------
/// Parser position, the parameter bytes of the open sequence, and the reports
/// completed so far.
pub ghost struct Parse {
    /// Where the parser stands.
    pub state: State,
    /// Parameter bytes of the open sequence.
    pub params: Seq<u8>,
    /// Completed reports, in arrival order.
    pub out: Seq<CursorReport>,
}

/// A byte that ends a control sequence.
pub open spec fn is_final(b: u8) -> bool {
    0x40 <= b <= 0x7E
}

/// A digit or a semicolon.
pub open spec fn is_param(b: u8) -> bool {
    0x30 <= b <= 0x39 || b == 0x3B
}

/// The characters of ASCII bytes.
pub open spec fn ascii_text(b: Seq<u8>) -> Seq<char> {
    b.map_values(|x: u8| x as char)
}

/// The report that parameter bytes denote: two decimal numbers with a semicolon
/// between them.
pub open spec fn report_of(params: Seq<u8>) -> Option<CursorReport> {
    let s = ascii_text(params);
    let k = index_from(s, ';', 0);
    if k >= s.len() {
        None
    } else {
        match (parse_u32(s.take(k), 10), parse_u32(s.skip(k + 1), 10)) {
            (Some(row), Some(col)) => Some(CursorReport { row_1based: row, col_1based: col }),
            _ => None,
        }
    }
}

/// One byte of the stream.
pub open spec fn step(p: Parse, b: u8) -> Parse {
    match p.state {
        State::Ground => if b == 0x1B {
            Parse { state: State::Esc, ..p }
        } else {
            p
        },
        State::Esc => if b == 0x5B {
            Parse { state: State::CsiParams, params: seq![], ..p }
        } else if b == 0x1B {
            p
        } else {
            Parse { state: State::Ground, ..p }
        },
        State::CsiParams => if is_param(b) {
            Parse { params: p.params.push(b), ..p }
        } else if 0x3C <= b <= 0x3F {
            Parse { state: State::CsiPrivate, ..p }
        } else if 0x20 <= b <= 0x2F {
            Parse { state: State::CsiIntermediate, ..p }
        } else if b == 0x1B {
            Parse { state: State::Esc, ..p }
        } else if b == 0x52 && report_of(p.params) is Some {
            Parse { state: State::Ground, out: p.out.push(report_of(p.params).unwrap()), ..p }
        } else {
            Parse { state: State::Ground, ..p }
        },
        State::CsiPrivate | State::CsiIntermediate => if is_final(b) {
            Parse { state: State::Ground, ..p }
        } else {
            p
        },
    }
}

/// The bytes of the stream, one after the other.
pub open spec fn run(p: Parse, bytes: Seq<u8>) -> Parse
    decreases bytes.len(),
{
    if bytes.len() == 0 {
        p
    } else {
        step(run(p, bytes.drop_last()), bytes.last())
    }
}

fn parse_params(params: &[u8]) -> (out: Option<CursorReport>)
    ensures
        out == report_of(params@),
{
    let mut text: Vec<char> = Vec::new();
    for i in 0..params.len()
        invariant
            text@ == ascii_text(params@.take(i as int)),
    {
        text.push(params[i] as char);
        assert(text@ =~= ascii_text(params@.take(i + 1)));
    }
    assert(params@.take(params@.len() as int) =~= params@);
    let n = text.len();
    let k = find_char(text.as_slice(), ';', 0);
    if k >= n {
        return None;
    }
    let left = slice_chars(text.as_slice(), 0, k);
    let right = slice_chars(text.as_slice(), k + 1, n);
    assert(left@ =~= text@.take(k as int));
    assert(right@ =~= text@.skip(k + 1));
    match (read_u32(left.as_slice(), 10), read_u32(right.as_slice(), 10)) {
        (Some(row), Some(col)) => Some(CursorReport { row_1based: row, col_1based: col }),
        _ => None,
    }
}

/// Incremental parser over the raw stdin byte stream.
///
/// The parser never discards bytes it has not classified: unknown sequences are
/// consumed atomically (CSI semantics) and dropped only when they cannot be a
/// cursor report, which makes stray reports (DA replies, mode reports) inert to
/// correlation.
#[derive(Debug)]
pub struct DsrParser {
    state: State,
    params: Vec<u8>,
}

impl Default for DsrParser {
    fn default() -> (p: Self)
        ensures
            p.parse(seq![]) == start(),
    {
        let p = DsrParser { state: State::Ground, params: Vec::new() };
        assert(p.params@ =~= seq![]);
        p
    }
}

/// A parser that has seen nothing.
pub open spec fn start() -> Parse {
    Parse { state: State::Ground, params: seq![], out: seq![] }
}

/// Feeding `bytes` takes the parser from `before` to `after` and completes the
/// reports `out`.
pub open spec fn feeds(
    before: DsrParser,
    bytes: Seq<u8>,
    after: DsrParser,
    out: Seq<CursorReport>,
) -> bool {
    after.parse(out) == run(before.parse(seq![]), bytes)
}

impl DsrParser {
    /// Where the parser stands.
    pub closed spec fn position(self) -> State {
        self.state
    }

    /// The parameter bytes of the open sequence.
    pub closed spec fn pending(self) -> Seq<u8> {
        self.params@
    }

    /// The parser's position with the given reports completed.
    pub open spec fn parse(self, out: Seq<CursorReport>) -> Parse {
        Parse { state: self.position(), params: self.pending(), out }
    }

    /// Feed raw bytes, returning every completed cursor report.
    pub fn feed(&mut self, bytes: &[u8]) -> (out: Vec<CursorReport>)
        ensures
            out@ == run(old(self).parse(seq![]), bytes@).out,
            feeds(*old(self), bytes@, *final(self), out@),
    {
        let mut out: Vec<CursorReport> = Vec::new();
        assert(out@ =~= seq![]);
        assert(bytes@.take(0) =~= seq![]);
        for i in 0..bytes.len()
            invariant
                self.parse(out@) == run(old(self).parse(seq![]), bytes@.take(i as int)),
        {
            let b = bytes[i];
            let ghost before = self.parse(out@);
            proof {
                assert(bytes@.take(i + 1).drop_last() =~= bytes@.take(i as int));
                assert(bytes@.take(i + 1).last() == b);
            }
            match self.state {
                State::Ground => {
                    if b == 0x1B {
                        self.state = State::Esc;
                    }
                },
                State::Esc => {
                    if b == 0x5B {
                        self.state = State::CsiParams;
                        self.params.clear();
                        assert(self.params@ =~= seq![]);
                    } else if b != 0x1B {
                        self.state = State::Ground;
                    }
                },
                State::CsiParams => {
                    if (0x30 <= b && b <= 0x39) || b == 0x3B {
                        self.params.push(b);
                    } else if 0x3C <= b && b <= 0x3F {
                        // Private parameter marker: sequences like DA replies
                        // can never be cursor reports.
                        self.state = State::CsiPrivate;
                    } else if 0x20 <= b && b <= 0x2F {
                        self.state = State::CsiIntermediate;
                    } else if b == 0x1B {
                        // An escape inside a sequence restarts it.
                        self.state = State::Esc;
                    } else {
                        if b == 0x52 {
                            if let Some(report) = parse_params(self.params.as_slice()) {
                                out.push(report);
                            }
                        }
                        self.state = State::Ground;
                    }
                },
                State::CsiPrivate => {
                    if 0x40 <= b && b <= 0x7E {
                        self.state = State::Ground;
                    }
                },
                State::CsiIntermediate => {
                    if 0x40 <= b && b <= 0x7E {
                        self.state = State::Ground;
                    }
                },
            }
            assert(self.parse(out@) == step(before, b));
        }
        assert(bytes@.take(bytes@.len() as int) =~= bytes@);
        out
    }
}

/// Shared inbox between the stdin reader thread and the control logic.
///
/// Bytes flow in continuously from the start (outside the frame render loop);
/// consumers inspect the accumulated report list without ever blocking the
/// render path.
#[derive(Debug)]
pub struct ReportLog {
    parser: DsrParser,
    reports: Vec<CursorReport>,
}

impl ReportLog {
    /// Everything the log has decoded, with the parser's position.
    pub closed spec fn parse(self) -> Parse {
        self.parser.parse(self.reports@)
    }

    /// The decoded reports.
    pub open spec fn view(&self) -> Seq<CursorReport> {
        self.parse().out
    }

    /// Create an empty log.
    pub fn new() -> (log: Self)
        ensures
            log.parse() == start(),
    {
        let log = ReportLog { parser: DsrParser::default(), reports: Vec::new() };
        assert(log.reports@ =~= seq![]);
        log
    }

    /// Feed freshly read bytes into the log.
    pub fn feed(&mut self, bytes: &[u8])
        ensures
            final(self).parse() == run(old(self).parse(), bytes@),
    {
        let more = self.parser.feed(bytes);
        proof {
            lemma_out_accumulates(old(self).parse(), bytes@);
        }
        for i in 0..more.len()
            invariant
                self.reports@ == old(self).reports@ + more@.take(i as int),
                self.parser.parse(more@) == run(old(self).parser.parse(seq![]), bytes@),
        {
            self.reports.push(more[i]);
            assert(self.reports@ =~= old(self).reports@ + more@.take(i + 1));
        }
        assert(more@.take(more@.len() as int) =~= more@);
    }

    /// All decoded cursor reports so far, in arrival order.
    pub fn reports(&self) -> (r: &[CursorReport])
        ensures
            r@ == self@,
    {
        self.reports.as_slice()
    }

    /// Search for a specific report among entries at index `from` or later: the
    /// index of the first one.
    pub fn find_from(&self, from: usize, want: CursorReport) -> (at: Option<usize>)
        requires
            from <= self@.len(),
        ensures
            match at {
                Some(i) => from <= i < self@.len() && self@[i as int] == want && forall|j: int|
                    from <= j < i ==> self@[j] != want,
                None => forall|j: int| from <= j < self@.len() ==> self@[j] != want,
            },
    {
        for i in from..self.reports.len()
            invariant
                from <= self.reports@.len(),
                self@ == self.reports@,
                forall|j: int| from <= j < i ==> self@[j] != want,
        {
            if self.reports[i] == want {
                return Some(i);
            }
        }
        None
    }
}

impl Default for ReportLog {
    fn default() -> (log: Self)
        ensures
            log.parse() == start(),
    {
        ReportLog::new()
    }
}

// ---------------------------------------------------------------------------
// Laws
// ---------------------------------------------------------------------------
/// Reports already decoded never change what the bytes decode to: they are only
/// appended to.
proof fn lemma_out_accumulates(p: Parse, bytes: Seq<u8>)
    ensures
        run(p, bytes).state == run(Parse { out: seq![], ..p }, bytes).state,
        run(p, bytes).params == run(Parse { out: seq![], ..p }, bytes).params,
        run(p, bytes).out == p.out + run(Parse { out: seq![], ..p }, bytes).out,
    decreases bytes.len(),
{
    let q = Parse { out: seq![], ..p };
    if bytes.len() == 0 {
        assert(p.out + q.out =~= p.out);
    } else {
        lemma_out_accumulates(p, bytes.drop_last());
        let a = run(p, bytes.drop_last());
        let b = run(q, bytes.drop_last());
        assert(run(p, bytes).out =~= p.out + run(q, bytes).out);
    }
}

/// Nothing that was decoded is ever discarded: feeding more bytes keeps every
/// report, in place.
pub proof fn feeding_keeps_earlier_reports(p: Parse, bytes: Seq<u8>, i: int)
    requires
        0 <= i < p.out.len(),
    ensures
        i < run(p, bytes).out.len(),
        run(p, bytes).out[i] == p.out[i],
{
    lemma_out_accumulates(p, bytes);
}

/// How the stream is cut into reads makes no difference.
pub proof fn splitting_the_stream_changes_nothing(p: Parse, a: Seq<u8>, b: Seq<u8>)
    ensures
        run(p, a + b) == run(run(p, a), b),
    decreases b.len(),
{
    if b.len() == 0 {
        assert(a + b =~= a);
    } else {
        splitting_the_stream_changes_nothing(p, a, b.drop_last());
        assert((a + b).drop_last() =~= a + b.drop_last());
        assert((a + b).last() == b.last());
    }
}

/// Two reads in a row do what one read of the joined bytes does: they return the
/// same reports and leave the parser in the same place.
pub proof fn two_feeds_are_one(
    p0: DsrParser,
    a: Seq<u8>,
    p1: DsrParser,
    out1: Seq<CursorReport>,
    b: Seq<u8>,
    p2: DsrParser,
    out2: Seq<CursorReport>,
    q: DsrParser,
    out: Seq<CursorReport>,
)
    requires
        feeds(p0, a, p1, out1),
        feeds(p1, b, p2, out2),
        feeds(p0, a + b, q, out),
    ensures
        out == out1 + out2,
        q.position() == p2.position(),
        q.pending() == p2.pending(),
{
    splitting_the_stream_changes_nothing(p0.parse(seq![]), a, b);
    let mid = run(p0.parse(seq![]), a);
    lemma_out_accumulates(mid, b);
    assert(Parse { out: seq![], ..mid } == p1.parse(seq![]));
}

/// The bytes of ASCII text.
pub open spec fn ascii_bytes(s: Seq<char>) -> Seq<u8> {
    s.map_values(|c: char| c as u8)
}

/// The cursor-position report an emulator sends.
pub open spec fn report_bytes(r: CursorReport) -> Seq<u8> {
    seq![0x1Bu8, 0x5B] + (ascii_bytes(decimal(r.row_1based as nat)) + seq![0x3Bu8] + ascii_bytes(
        decimal(r.col_1based as nat),
    )) + seq![0x52u8]
}

/// A cursor report is decoded to exactly the position it carries, whatever came
/// before it outside a sequence, and leaves the parser outside a sequence.
pub proof fn reports_are_decoded(p: Parse, r: CursorReport)
    requires
        p.state == State::Ground,
    ensures
        run(p, report_bytes(r)).state == State::Ground,
        run(p, report_bytes(r)).out == p.out.push(r),
{
    let row = decimal(r.row_1based as nat);
    let col = decimal(r.col_1based as nat);
    let body = ascii_bytes(row) + seq![0x3Bu8] + ascii_bytes(col);
    let head = seq![0x1Bu8, 0x5B];
    numeral_reads_back(r.row_1based as nat, 10, 1);
    numeral_reads_back(r.col_1based as nat, 10, 1);
    splitting_the_stream_changes_nothing(p, head + body, seq![0x52u8]);
    splitting_the_stream_changes_nothing(p, head, body);
    let q = run(p, head);
    assert(q == Parse { state: State::CsiParams, params: seq![], out: p.out }) by {
        assert(head.drop_last().drop_last() =~= seq![]);
        assert(head.drop_last().last() == 0x1Bu8);
        reveal_with_fuel(run, 3);
    }
    assert forall|i: int| 0 <= i < body.len() implies is_param(#[trigger] body[i]) by {
        if i < row.len() {
            assert(digit_value(row[i]) is Some);
        } else if i > row.len() {
            assert(digit_value(col[i - row.len() - 1]) is Some);
        }
    }
    lemma_params_collect(q, body);
    let e = run(q, body);
    assert(e.params =~= body);
    lemma_report_of(r);
    assert(seq![0x52u8].drop_last() =~= seq![]);
    reveal_with_fuel(run, 2);
}

/// Parameter bytes are collected as they come.
proof fn lemma_params_collect(p: Parse, bytes: Seq<u8>)
    requires
        p.state == State::CsiParams,
        forall|i: int| 0 <= i < bytes.len() ==> is_param(#[trigger] bytes[i]),
    ensures
        run(p, bytes).state == State::CsiParams,
        run(p, bytes).params == p.params + bytes,
        run(p, bytes).out == p.out,
    decreases bytes.len(),
{
    if bytes.len() == 0 {
        assert(p.params + bytes =~= p.params);
    } else {
        lemma_params_collect(p, bytes.drop_last());
        assert(is_param(bytes[bytes.len() - 1]));
        assert(run(p, bytes).params =~= p.params + bytes);
    }
}

proof fn lemma_report_of(r: CursorReport)
    ensures
        report_of(
            ascii_bytes(decimal(r.row_1based as nat)) + seq![0x3Bu8] + ascii_bytes(
                decimal(r.col_1based as nat),
            ),
        ) == Some(r),
{
    let row = decimal(r.row_1based as nat);
    let col = decimal(r.col_1based as nat);
    numeral_reads_back(r.row_1based as nat, 10, 1);
    numeral_reads_back(r.col_1based as nat, 10, 1);
    let body = ascii_bytes(row) + seq![0x3Bu8] + ascii_bytes(col);
    let s = ascii_text(body);
    assert forall|i: int| 0 <= i < row.len() implies s[i] == row[i] && s[i] != ';' by {
        assert(digit_value(row[i]) is Some);
    }
    assert(s[row.len() as int] == ';');
    lemma_index(s, row.len() as int, 0);
    assert(s.take(row.len() as int) =~= row);
    assert forall|i: int| 0 <= i < col.len() implies s[row.len() + 1 + i] == col[i] by {
        assert(digit_value(col[i]) is Some);
    }
    assert(s.skip(row.len() as int + 1) =~= col);
}

proof fn lemma_index(s: Seq<char>, k: int, from: int)
    requires
        0 <= from <= k < s.len(),
        s[k] == ';',
        forall|i: int| 0 <= i < k ==> s[i] != ';',
    ensures
        index_from(s, ';', from) == k,
    decreases k - from,
{
    if from < k {
        lemma_index(s, k, from + 1);
    }
}

/// The reports an emulator sends, one after the other.
pub open spec fn stream_of(rs: Seq<CursorReport>) -> Seq<u8>
    decreases rs.len(),
{
    if rs.len() == 0 {
        seq![]
    } else {
        stream_of(rs.drop_last()) + report_bytes(rs.last())
    }
}

/// A list of cursor reports is decoded to that list, in order.
pub proof fn report_lists_are_decoded(p: Parse, rs: Seq<CursorReport>)
    requires
        p.state == State::Ground,
    ensures
        run(p, stream_of(rs)).state == State::Ground,
        run(p, stream_of(rs)).out == p.out + rs,
    decreases rs.len(),
{
    if rs.len() == 0 {
        assert(p.out + rs =~= p.out);
    } else {
        report_lists_are_decoded(p, rs.drop_last());
        splitting_the_stream_changes_nothing(
            p,
            stream_of(rs.drop_last()),
            report_bytes(rs.last()),
        );
        reports_are_decoded(run(p, stream_of(rs.drop_last())), rs.last());
        assert((p.out + rs.drop_last()).push(rs.last()) =~= p.out + rs);
    }
}

/// A control sequence: its parameter and intermediate bytes, then the byte that
/// ends it.
pub open spec fn csi(body: Seq<u8>, last: u8) -> Seq<u8> {
    seq![0x1Bu8, 0x5B] + body + seq![last]
}

/// Whether a control sequence is a cursor report: it ends in `R`, holds digits
/// and semicolons alone, and they denote a position.
pub open spec fn is_report(body: Seq<u8>, last: u8) -> bool {
    &&& last == 0x52
    &&& forall|i: int| 0 <= i < body.len() ==> is_param(#[trigger] body[i])
    &&& report_of(body) is Some
}

/// Every control sequence other than a cursor report is inert to correlation:
/// between what came before it and what follows it, it changes no report.
pub proof fn other_sequences_are_inert(
    p: Parse,
    before: Seq<u8>,
    body: Seq<u8>,
    last: u8,
    after: Seq<u8>,
)
    requires
        run(p, before).state == State::Ground,
        forall|i: int| 0 <= i < body.len() ==> 0x20 <= #[trigger] body[i] <= 0x3F,
        is_final(last),
        !is_report(body, last),
    ensures
        run(p, before + csi(body, last) + after).out == run(p, before + after).out,
        run(p, before + csi(body, last) + after).state == run(p, before + after).state,
{
    let q = run(p, before);
    let s = csi(body, last);
    splitting_the_stream_changes_nothing(p, before + s, after);
    splitting_the_stream_changes_nothing(p, before, s);
    splitting_the_stream_changes_nothing(p, before, after);
    let head = seq![0x1Bu8, 0x5B];
    splitting_the_stream_changes_nothing(q, head + body, seq![last]);
    splitting_the_stream_changes_nothing(q, head, body);
    assert(run(q, head) == Parse { state: State::CsiParams, params: seq![], out: q.out }) by {
        assert(head.drop_last().drop_last() =~= seq![]);
        assert(head.drop_last().last() == 0x1Bu8);
        reveal_with_fuel(run, 3);
    }
    lemma_body_waits(run(q, head), body);
    let e = run(run(q, head), body);
    assert(seq![last].drop_last() =~= seq![]);
    assert(run(e, seq![last]) == step(e, last)) by {
        reveal_with_fuel(run, 2);
    }
    assert(seq![] + body =~= body);
    lemma_params_are_reset(run(q, s), q, after);
}

/// Within a control sequence no report is completed; one that collects
/// parameters has met nothing else.
proof fn lemma_body_waits(p: Parse, body: Seq<u8>)
    requires
        p.state == State::CsiParams,
        forall|i: int| 0 <= i < body.len() ==> 0x20 <= #[trigger] body[i] <= 0x3F,
    ensures
        run(p, body).out == p.out,
        run(p, body).state != State::Esc,
        run(p, body).state == State::CsiParams ==> run(p, body).params == p.params + body && (
        forall|i: int| 0 <= i < body.len() ==> is_param(#[trigger] body[i])),
    decreases body.len(),
{
    if body.len() == 0 {
        assert(p.params + body =~= p.params);
    } else {
        let short = body.drop_last();
        assert forall|i: int| 0 <= i < short.len() implies 0x20 <= #[trigger] short[i] <= 0x3F by {
            assert(short[i] == body[i]);
        }
        lemma_body_waits(p, short);
        let b = body[body.len() - 1];
        assert(0x20 <= b <= 0x3F);
        if run(p, body).state == State::CsiParams {
            assert(run(p, short).state == State::CsiParams && is_param(b));
            assert(run(p, body).params =~= p.params + body);
            assert forall|i: int| 0 <= i < body.len() implies is_param(#[trigger] body[i]) by {
                if i < short.len() {
                    assert(is_param(short[i]));
                }
            }
        }
    }
}

/// Parameters left over from a finished sequence are never read.
proof fn lemma_params_are_reset(p: Parse, q: Parse, bytes: Seq<u8>)
    requires
        p.state == q.state,
        p.out == q.out,
        p.state == State::CsiParams ==> p.params == q.params,
    ensures
        run(p, bytes).state == run(q, bytes).state,
        run(p, bytes).out == run(q, bytes).out,
        run(p, bytes).state == State::CsiParams ==> run(p, bytes).params == run(q, bytes).params,
    decreases bytes.len(),
{
    if bytes.len() > 0 {
        lemma_params_are_reset(p, q, bytes.drop_last());
    }
}

/// A control sequence with a private marker, such as a DA reply or a mode
/// report, decodes to nothing and leaves the parser outside a sequence.
pub proof fn private_sequences_are_inert(p: Parse, marker: u8, body: Seq<u8>, last: u8)
    requires
        p.state == State::Ground,
        0x3C <= marker <= 0x3F,
        forall|i: int| 0 <= i < body.len() ==> !is_final(#[trigger] body[i]),
        is_final(last),
    ensures
        run(p, seq![0x1Bu8, 0x5B, marker] + body + seq![last]).state == State::Ground,
        run(p, seq![0x1Bu8, 0x5B, marker] + body + seq![last]).out == p.out,
{
    let head = seq![0x1Bu8, 0x5B, marker];
    splitting_the_stream_changes_nothing(p, head + body, seq![last]);
    splitting_the_stream_changes_nothing(p, head, body);
    let q = run(p, head);
    assert(q.state == State::CsiPrivate && q.out == p.out) by {
        assert(head.drop_last().drop_last().drop_last() =~= seq![]);
        assert(head.drop_last().last() == 0x5Bu8);
        assert(head.drop_last().drop_last().last() == 0x1Bu8);
        reveal_with_fuel(run, 4);
    }
    lemma_private_waits(q, body);
    assert(seq![last].drop_last() =~= seq![]);
    reveal_with_fuel(run, 2);
}

proof fn lemma_private_waits(p: Parse, body: Seq<u8>)
    requires
        p.state == State::CsiPrivate,
        forall|i: int| 0 <= i < body.len() ==> !is_final(#[trigger] body[i]),
    ensures
        run(p, body) == p,
    decreases body.len(),
{
    if body.len() > 0 {
        lemma_private_waits(p, body.drop_last());
        assert(!is_final(body[body.len() - 1]));
    }
}

/// Bytes without an escape are inert outside a sequence.
pub proof fn plain_bytes_are_inert(p: Parse, bytes: Seq<u8>)
    requires
        p.state == State::Ground,
        forall|i: int| 0 <= i < bytes.len() ==> #[trigger] bytes[i] != 0x1B,
    ensures
        run(p, bytes) == p,
    decreases bytes.len(),
{
    if bytes.len() > 0 {
        plain_bytes_are_inert(p, bytes.drop_last());
        assert(bytes[bytes.len() - 1] != 0x1B);
    }
}

/// Two bytes that open a control sequence.
proof fn lemma_opened(p: Parse)
    requires
        p.state == State::Ground || p.state == State::Esc || p.state == State::CsiParams,
    ensures
        run(p, seq![0x1Bu8, 0x5B]) == (Parse {
            state: State::CsiParams,
            params: seq![],
            out: p.out,
        }),
{
    let head = seq![0x1Bu8, 0x5B];
    assert(head.drop_last().drop_last() =~= seq![]);
    assert(head.drop_last().last() == 0x1Bu8);
    reveal_with_fuel(run, 3);
}

proof fn lemma_one(p: Parse, b: u8)
    ensures
        run(p, seq![b]) == step(p, b),
{
    assert(seq![b].drop_last() =~= seq![]);
    reveal_with_fuel(run, 2);
}

/// A report is decoded behind whatever an escape cuts short: behind another escape,
/// and behind a sequence of which only parameters have come.
pub proof fn escapes_start_over(p: Parse, digits: Seq<u8>, r: CursorReport)
    requires
        p.state == State::Ground,
        forall|i: int|
            0 <= i < digits.len() ==> 0x30 <= #[trigger] digits[i] <= 0x39 || digits[i] == 0x3B,
    ensures
        run(p, seq![0x1Bu8] + report_bytes(r)).out == p.out.push(r),
        run(p, seq![0x1Bu8] + report_bytes(r)).state == State::Ground,
        run(p, seq![0x1Bu8, 0x5B] + digits + report_bytes(r)).out == p.out.push(r),
        run(p, seq![0x1Bu8, 0x5B] + digits + report_bytes(r)).state == State::Ground,
{
    let row = ascii_bytes(decimal(r.row_1based as nat));
    let col = ascii_bytes(decimal(r.col_1based as nat));
    let head = seq![0x1Bu8, 0x5B];
    let tail = row + seq![0x3Bu8] + col + seq![0x52u8];
    let ground = Parse { state: State::Ground, ..p };
    assert(report_bytes(r) =~= head + tail);
    reports_are_decoded(ground, r);
    splitting_the_stream_changes_nothing(ground, head, tail);
    lemma_opened(ground);
    // Behind another escape.
    splitting_the_stream_changes_nothing(p, seq![0x1Bu8], report_bytes(r));
    lemma_one(p, 0x1B);
    let e = run(p, seq![0x1Bu8]);
    splitting_the_stream_changes_nothing(e, head, tail);
    lemma_opened(e);
    // Behind parameters.
    splitting_the_stream_changes_nothing(p, head + digits, report_bytes(r));
    splitting_the_stream_changes_nothing(p, head, digits);
    lemma_opened(p);
    let q = run(p, head);
    assert forall|i: int| 0 <= i < digits.len() implies is_param(#[trigger] digits[i]) by {
        assert(0x30 <= digits[i] <= 0x39 || digits[i] == 0x3B);
    }
    lemma_params_collect(q, digits);
    let d = run(q, digits);
    splitting_the_stream_changes_nothing(d, head, tail);
    lemma_opened(d);
}

/// What breaks a sequence off leaves no report: a byte behind an escape that opens
/// no sequence, and a control byte or one beyond ASCII among the parameters.
pub proof fn broken_sequences_are_inert(p: Parse, digits: Seq<u8>, b: u8)
    requires
        p.state == State::Ground,
        forall|i: int|
            0 <= i < digits.len() ==> 0x30 <= #[trigger] digits[i] <= 0x39 || digits[i] == 0x3B,
        b != 0x1B,
    ensures
        b != 0x5B ==> run(p, seq![0x1Bu8, b]).out == p.out && run(p, seq![0x1Bu8, b]).state
            == State::Ground,
        b < 0x20 || b > 0x7E ==> run(p, seq![0x1Bu8, 0x5B] + digits + seq![b]).out == p.out && run(
            p,
            seq![0x1Bu8, 0x5B] + digits + seq![b],
        ).state == State::Ground,
{
    let head = seq![0x1Bu8, 0x5B];
    assert(seq![0x1Bu8, b] =~= seq![0x1Bu8] + seq![b]);
    splitting_the_stream_changes_nothing(p, seq![0x1Bu8], seq![b]);
    lemma_one(p, 0x1B);
    lemma_one(run(p, seq![0x1Bu8]), b);
    splitting_the_stream_changes_nothing(p, head + digits, seq![b]);
    splitting_the_stream_changes_nothing(p, head, digits);
    lemma_opened(p);
    let q = run(p, head);
    assert forall|i: int| 0 <= i < digits.len() implies is_param(#[trigger] digits[i]) by {
        assert(0x30 <= digits[i] <= 0x39 || digits[i] == 0x3B);
    }
    lemma_params_collect(q, digits);
    lemma_one(run(q, digits), b);
}

/// A sequence with an intermediate byte is inert up to its final byte, whatever
/// stands between them.
pub proof fn intermediate_sequences_are_inert(
    p: Parse,
    digits: Seq<u8>,
    mark: u8,
    body: Seq<u8>,
    last: u8,
)
    requires
        p.state == State::Ground,
        forall|i: int|
            0 <= i < digits.len() ==> 0x30 <= #[trigger] digits[i] <= 0x39 || digits[i] == 0x3B,
        0x20 <= mark <= 0x2F,
        forall|i: int| 0 <= i < body.len() ==> !(0x40 <= #[trigger] body[i] <= 0x7E),
        0x40 <= last <= 0x7E,
    ensures
        ({
            let bytes = seq![0x1Bu8, 0x5B] + digits + seq![mark] + body + seq![last];
            run(p, bytes).out == p.out && run(p, bytes).state == State::Ground
        }),
{
    let head = seq![0x1Bu8, 0x5B];
    splitting_the_stream_changes_nothing(p, head + digits + seq![mark] + body, seq![last]);
    splitting_the_stream_changes_nothing(p, head + digits + seq![mark], body);
    splitting_the_stream_changes_nothing(p, head + digits, seq![mark]);
    splitting_the_stream_changes_nothing(p, head, digits);
    lemma_opened(p);
    let q = run(p, head);
    assert forall|i: int| 0 <= i < digits.len() implies is_param(#[trigger] digits[i]) by {
        assert(0x30 <= digits[i] <= 0x39 || digits[i] == 0x3B);
    }
    lemma_params_collect(q, digits);
    let d = run(q, digits);
    lemma_one(d, mark);
    let w = run(d, seq![mark]);
    lemma_intermediate_waits(w, body);
    lemma_one(w, last);
}

proof fn lemma_intermediate_waits(p: Parse, body: Seq<u8>)
    requires
        p.state == State::CsiIntermediate,
        forall|i: int| 0 <= i < body.len() ==> !(0x40 <= #[trigger] body[i] <= 0x7E),
    ensures
        run(p, body) == p,
    decreases body.len(),
{
    if body.len() > 0 {
        let init = body.drop_last();
        assert forall|i: int| 0 <= i < init.len() implies !(0x40 <= #[trigger] init[i]
            <= 0x7E) by {
            assert(!(0x40 <= body[i] <= 0x7E));
        }
        lemma_intermediate_waits(p, init);
        assert(!(0x40 <= body[body.len() - 1] <= 0x7E));
    }
}

/// The parameters of a report are the row, a semicolon and the column, both in
/// decimal. Nothing without a semicolon is a report.
pub proof fn reports_give_row_then_column(a: Seq<u8>, b: Seq<u8>)
    requires
        forall|i: int| 0 <= i < a.len() ==> #[trigger] a[i] != 0x3B,
    ensures
        ({
            let (row, col) = (
                parse_u32(a.map_values(|x: u8| x as char), 10),
                parse_u32(b.map_values(|x: u8| x as char), 10),
            );
            let r = report_of(a + seq![0x3Bu8] + b);
            &&& r is Some <==> row is Some && col is Some
            &&& r is Some ==> r->Some_0.row_1based == row->Some_0 && r->Some_0.col_1based
                == col->Some_0
        }),
        report_of(a) is None,
{
    let s = ascii_text(a + seq![0x3Bu8] + b);
    let n = a.len() as int;
    assert forall|i: int| 0 <= i < n implies s[i] != ';' by {
        assert(a[i] != 0x3B);
        lemma_semicolon(a[i]);
    }
    assert(s[n] == ';');
    lemma_index(s, n, 0);
    assert(s.take(n) =~= a.map_values(|x: u8| x as char));
    assert(s.skip(n + 1) =~= b.map_values(|x: u8| x as char));
    let t = ascii_text(a);
    assert forall|i: int| 0 <= i < t.len() implies t[i] != ';' by {
        assert(a[i] != 0x3B);
        lemma_semicolon(a[i]);
    }
    lemma_without(t, 0);
}

proof fn lemma_semicolon(b: u8)
    requires
        b != 0x3B,
    ensures
        b as char != ';',
{
}

proof fn lemma_without(s: Seq<char>, from: int)
    requires
        0 <= from <= s.len(),
        forall|i: int| 0 <= i < s.len() ==> s[i] != ';',
    ensures
        index_from(s, ';', from) == s.len(),
    decreases s.len() - from,
{
    if from < s.len() {
        lemma_without(s, from + 1);
    }
}

/// A parser begins outside any sequence, with nothing read. A final byte is any from
/// `@` to `~`.
pub proof fn parsing_begins_in_the_open(b: u8)
    ensures
        start().state == State::Ground,
        start().params.len() == 0,
        start().out.len() == 0,
        is_final(b) <==> 0x40 <= b <= 0x7E,
{
}

} // verus!
