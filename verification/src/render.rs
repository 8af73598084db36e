//! Pure page-render builders.
//!
//! Everything the harness writes to the terminal is produced here, so that it
//! can be tested without a terminal: CUP parameter conversion, page clears,
//! sentinel frames, and probe placement all live in this module.
//!
//! Coordinate contract:
//! * internal rows are 0-based and **page-relative**;
//! * ANSI CUP is 1-based and treats parameter `0` as `1`, so emission adds 1
//!   exactly once;
//! * physical row [`FOOTER_ROW_1BASED`] is reserved for the page-end handshake
//!   probe and never carries candidate ink.
use crate::catalog::{is_scalar, Candidate};
use crate::dsr::ascii_bytes;
use crate::text::{chars_of, decimal, numeral_reads_back, push_number, push_str, text_of};
use vstd::prelude::*;

verus! {

/// Rows per page (physical rows 1 to 24).
pub const PAGE_ROWS: u16 = 24;

/// Physical 1-based row reserved for the footer handshake probe.
pub const FOOTER_ROW_1BASED: u16 = 25;

/// Left sentinel of the anchor frame.
pub const SENTINEL_LEFT: char = 'A';

/// Right sentinel of the anchor frame.
pub const SENTINEL_RIGHT: char = 'B';

/// Boundary bar of the anchor frame.
pub const BOUNDARY: char = '|';

/// 0-based column of the left sentinel inside the printed line.
pub const COL_A0: u16 = 2;

/// 0-based column of the icon inside the printed line.
pub const COL_ICON0: u16 = 3;

/// 0-based column of the right sentinel inside the printed line.
pub const COL_B0: u16 = 4;

/// Cursor column (1-based) after printing a 7-character frame with a 1-cell
/// icon.
pub const EXPECTED_END_COL_1BASED: u16 = 8;

/// Expected reply payload of the footer handshake (column component; the row
/// component is [`FOOTER_ROW_1BASED`]).
pub const FOOTER_REPLY_COL_1BASED: u32 = 1;

/// Maximum candidates that fit on one page (the control row occupies row 0).
pub const MAX_CANDIDATES_PER_PAGE: usize = 23;

// ---------------------------------------------------------------------------
// Texts
// ---------------------------------------------------------------------------
/// CUP to a 0-based page-relative row, column 1.
pub open spec fn cup_text(page_row0: int) -> Seq<char> {
    "\x1b["@ + decimal((page_row0 + 1) as nat) + ";1H"@
}

/// The seven characters of an anchor frame around the icon slot.
pub open spec fn frame_text(icon: char) -> Seq<char> {
    seq![BOUNDARY, ' ', SENTINEL_LEFT, icon, SENTINEL_RIGHT, ' ', BOUNDARY]
}

/// The control row.
pub open spec fn control_text(page_row0: int) -> Seq<char> {
    cup_text(page_row0) + frame_text(' ')
}

/// A candidate row with its cursor query.
pub open spec fn candidate_text(page_row0: int, glyph: char) -> Seq<char> {
    cup_text(page_row0) + frame_text(glyph) + "\x1b[6n"@
}

/// The footer probe.
pub open spec fn footer_text() -> Seq<char> {
    "\x1b["@ + decimal(FOOTER_ROW_1BASED as nat) + ";1H\x1b[6n"@
}

/// The candidate rows of a page, from page row 1 on.
pub open spec fn candidate_rows_text(chunk: Seq<Candidate>) -> Seq<char>
    decreases chunk.len(),
{
    if chunk.len() == 0 {
        seq![]
    } else {
        candidate_rows_text(chunk.drop_last()) + candidate_text(
            chunk.len() as int,
            chunk.last().codepoint as char,
        )
    }
}

/// All of one page: clear, control row, candidate rows, footer probe.
pub open spec fn page_text(chunk: Seq<Candidate>) -> Seq<char> {
    "\x1b[2J\x1b[H"@ + control_text(0) + candidate_rows_text(chunk) + footer_text()
}

// ---------------------------------------------------------------------------
// Builders
// ---------------------------------------------------------------------------
/// The bytes of ASCII text.
fn to_bytes(s: &str) -> (out: Vec<u8>)
    requires
        forall|i: int| 0 <= i < s@.len() ==> #[trigger] s@[i] as u32 <= 127,
    ensures
        out@ == ascii_bytes(s@),
{
    let c = chars_of(s);
    let mut out: Vec<u8> = Vec::new();
    for i in 0..c.len()
        invariant
            c@ == s@,
            forall|i: int| 0 <= i < s@.len() ==> #[trigger] s@[i] as u32 <= 127,
            out@ == ascii_bytes(s@.take(i as int)),
    {
        assert(s@[i as int] as u32 <= 127);
        out.push(c[i] as u8);
        assert(out@ =~= ascii_bytes(s@.take(i + 1)));
    }
    assert(s@.take(s@.len() as int) =~= s@);
    out
}

/// Enter alternate screen, hide the cursor, pin explicit SGR colors (light-gray
/// on black) so pixel analysis sees known fg/bg values.
pub fn begin_stream() -> (out: Vec<u8>)
    ensures
        out@ == ascii_bytes("\x1b[?1049h\x1b[?25l\x1b[0;37;40m"@),
{
    proof {
        reveal_strlit("\x1b[?1049h\x1b[?25l\x1b[0;37;40m");
    }
    to_bytes("\x1b[?1049h\x1b[?25l\x1b[0;37;40m")
}

/// Restore SGR/cursor state and leave the alternate screen.
pub fn end_stream() -> (out: Vec<u8>)
    ensures
        out@ == ascii_bytes("\x1b[0m\x1b[?25h\x1b[?1049l"@),
{
    proof {
        reveal_strlit("\x1b[0m\x1b[?25h\x1b[?1049l");
    }
    to_bytes("\x1b[0m\x1b[?25h\x1b[?1049l")
}

/// Clear the screen and home the cursor. Emitted at the start of every page so
/// residue from one page can never contaminate the next page's capture.
pub fn clear_page() -> (out: Vec<u8>)
    ensures
        out@ == ascii_bytes("\x1b[2J\x1b[H"@),
{
    proof {
        reveal_strlit("\x1b[2J\x1b[H");
    }
    to_bytes("\x1b[2J\x1b[H")
}

fn push_cup(out: &mut Vec<char>, page_row0: u16)
    ensures
        final(out)@ == old(out)@ + cup_text(page_row0 as int),
{
    push_str(out, "\x1b[");
    push_number(out, page_row0 as u64 + 1);
    push_str(out, ";1H");
    assert(out@ =~= old(out)@ + cup_text(page_row0 as int));
}

fn push_frame(out: &mut Vec<char>, icon: char)
    ensures
        final(out)@ == old(out)@ + frame_text(icon),
{
    out.push(BOUNDARY);
    out.push(' ');
    out.push(SENTINEL_LEFT);
    out.push(icon);
    out.push(SENTINEL_RIGHT);
    out.push(' ');
    out.push(BOUNDARY);
    assert(out@ =~= old(out)@ + frame_text(icon));
}

fn push_candidate(out: &mut Vec<char>, page_row0: u16, glyph: char)
    ensures
        final(out)@ == old(out)@ + candidate_text(page_row0 as int, glyph),
{
    push_cup(out, page_row0);
    push_frame(out, glyph);
    push_str(out, "\x1b[6n");
    assert(out@ =~= old(out)@ + candidate_text(page_row0 as int, glyph));
}

fn push_footer(out: &mut Vec<char>)
    ensures
        final(out)@ == old(out)@ + footer_text(),
{
    push_str(out, "\x1b[");
    push_number(out, FOOTER_ROW_1BASED as u64);
    push_str(out, ";1H\x1b[6n");
    assert(out@ =~= old(out)@ + footer_text());
}

/// CUP to the given 0-based page-relative row, column 1.
///
/// ECMA-48 parameters are 1-based and `0` aliases to `1`; converting here is the
/// single +1 boundary so rows 0 and 1 land on distinct physical lines.
pub fn cup(page_row0: u16) -> (s: String)
    ensures
        s@ == cup_text(page_row0 as int),
{
    let mut out: Vec<char> = Vec::new();
    push_cup(&mut out, page_row0);
    assert(out@ =~= cup_text(page_row0 as int));
    text_of(out.as_slice())
}

/// The control/reference row `| A B |` (the icon slot holds a space).
pub fn control_row(page_row0: u16) -> (s: String)
    ensures
        s@ == control_text(page_row0 as int),
{
    let mut out: Vec<char> = Vec::new();
    push_cup(&mut out, page_row0);
    push_frame(&mut out, ' ');
    assert(out@ =~= control_text(page_row0 as int));
    text_of(out.as_slice())
}

/// A candidate row `| A<glyph>B |` followed by its fire-and-forget CPR query.
pub fn candidate_row(page_row0: u16, glyph: char) -> (s: String)
    ensures
        s@ == candidate_text(page_row0 as int, glyph),
{
    let mut out: Vec<char> = Vec::new();
    push_candidate(&mut out, page_row0, glyph);
    assert(out@ =~= candidate_text(page_row0 as int, glyph));
    text_of(out.as_slice())
}

/// Move to the reserved footer row and fire the handshake probe. Its reply is
/// expected to report exactly that row, column 1.
pub fn footer_probe() -> (s: String)
    ensures
        s@ == footer_text(),
{
    let mut out: Vec<char> = Vec::new();
    push_footer(&mut out);
    assert(out@ =~= footer_text());
    text_of(out.as_slice())
}

/// Everything that one page sends to the terminal.
pub fn page_frame(chunk: &[Candidate]) -> (s: String)
    requires
        chunk@.len() <= MAX_CANDIDATES_PER_PAGE,
        forall|i: int| 0 <= i < chunk@.len() ==> is_scalar((#[trigger] chunk@[i]).codepoint as int),
    ensures
        s@ == page_text(chunk@),
{
    let mut out: Vec<char> = Vec::new();
    push_str(&mut out, "\x1b[2J\x1b[H");
    push_cup(&mut out, 0);
    push_frame(&mut out, ' ');
    let ghost head = "\x1b[2J\x1b[H"@ + control_text(0);
    assert(out@ =~= head);
    assert(head + candidate_rows_text(chunk@.take(0)) =~= head);
    for i in 0..chunk.len()
        invariant
            chunk@.len() <= MAX_CANDIDATES_PER_PAGE,
            forall|i: int|
                0 <= i < chunk@.len() ==> is_scalar((#[trigger] chunk@[i]).codepoint as int),
            out@ == head + candidate_rows_text(chunk@.take(i as int)),
    {
        assert(chunk@.take(i + 1).drop_last() =~= chunk@.take(i as int));
        let ghost before = out@;
        let glyph = chunk[i].glyph();
        push_candidate(&mut out, (i + 1) as u16, glyph);
        assert(glyph == chunk@[i as int].codepoint as char);
        assert(out@ =~= head + candidate_rows_text(chunk@.take(i + 1)));
    }
    assert(chunk@.take(chunk@.len() as int) =~= chunk@);
    push_footer(&mut out);
    assert(out@ =~= page_text(chunk@));
    text_of(out.as_slice())
}

// ---------------------------------------------------------------------------
// Laws
// ---------------------------------------------------------------------------
/// Distinct page rows are addressed by distinct sequences, and no sequence
/// carries the parameter `0`.
pub proof fn rows_are_addressed_apart(a: int, b: int)
    requires
        0 <= a,
        0 <= b,
        cup_text(a) == cup_text(b),
    ensures
        a == b,
{
    reveal_strlit("\x1b[");
    reveal_strlit(";1H");
    let s = cup_text(a);
    assert(s.subrange(2, s.len() - 3) =~= decimal((a + 1) as nat));
    assert(s.subrange(2, s.len() - 3) =~= decimal((b + 1) as nat));
    numeral_reads_back((a + 1) as nat, 10, 1);
    numeral_reads_back((b + 1) as nat, 10, 1);
}

/// The frame is seven cells wide, so that a one-cell icon leaves the cursor on
/// the expected column; the bars, the sentinels and the icon stand on their
/// columns.
pub proof fn frame_layout(icon: char)
    ensures
        frame_text(icon).len() + 1 == EXPECTED_END_COL_1BASED,
        frame_text(icon)[0] == BOUNDARY,
        frame_text(icon)[COL_A0 as int] == SENTINEL_LEFT,
        frame_text(icon)[COL_ICON0 as int] == icon,
        frame_text(icon)[COL_B0 as int] == SENTINEL_RIGHT,
        frame_text(icon)[6] == BOUNDARY,
{
}

/// The footer row lies below every row that a page can use.
pub proof fn footer_row_is_reserved(page_row0: int)
    requires
        0 <= page_row0 <= MAX_CANDIDATES_PER_PAGE,
    ensures
        page_row0 + 1 < FOOTER_ROW_1BASED,
        page_row0 < PAGE_ROWS,
{
}

/// A candidate row: the cursor moves to the row's first column, counted from one,
/// the frame follows with the glyph between the two sentinels, and the terminal is
/// asked where the cursor stands.
pub open spec fn drawn_row(page_row0: int, glyph: char) -> Seq<char> {
    seq!['\x1b', '['] + decimal((page_row0 + 1) as nat) + seq![';', '1', 'H'] + seq![
        '|',
        ' ',
        'A',
        glyph,
        'B',
        ' ',
        '|',
    ] + seq!['\x1b', '[', '6', 'n']
}

/// The rows of the candidates, from the second row of the page on.
pub open spec fn drawn_rows(chunk: Seq<Candidate>) -> Seq<char>
    decreases chunk.len(),
{
    if chunk.len() == 0 {
        seq![]
    } else {
        drawn_rows(chunk.drop_last()) + drawn_row(
            chunk.len() as int,
            chunk.last().codepoint as char,
        )
    }
}

proof fn lemma_drawn_row(page_row0: int, glyph: char)
    ensures
        candidate_text(page_row0, glyph) == drawn_row(page_row0, glyph),
{
    reveal_strlit("\x1b[");
    reveal_strlit(";1H");
    reveal_strlit("\x1b[6n");
    assert("\x1b["@ =~= seq!['\x1b', '[']);
    assert(";1H"@ =~= seq![';', '1', 'H']);
    assert("\x1b[6n"@ =~= seq!['\x1b', '[', '6', 'n']);
}

proof fn lemma_drawn_rows(chunk: Seq<Candidate>)
    ensures
        candidate_rows_text(chunk) == drawn_rows(chunk),
    decreases chunk.len(),
{
    if chunk.len() > 0 {
        lemma_drawn_rows(chunk.drop_last());
        lemma_drawn_row(chunk.len() as int, chunk.last().codepoint as char);
    }
}

/// A page clears the screen, draws the frame without an icon in the first row,
/// which asks for nothing, one row per candidate below it, and asks for the cursor
/// in row twenty-five at last.
pub proof fn pages_draw_one_row_per_candidate(chunk: Seq<Candidate>)
    ensures
        page_text(chunk) == "\x1b[2J\x1b[H"@ + ("\x1b["@ + decimal(1) + ";1H"@ + seq![
            '|',
            ' ',
            'A',
            ' ',
            'B',
            ' ',
            '|',
        ]) + drawn_rows(chunk) + ("\x1b["@ + decimal(25) + ";1H\x1b[6n"@),
{
    lemma_drawn_rows(chunk);
}

} // verus!
