//! Listings of the verified set: the visual table, search results, the metadata
//! of one icon, and the Markdown cheat-sheet.
//!
//! Everything is rendered to text; printing it, and the exit code that goes with
//! an empty listing, are the application's.
use crate::listing::{lemma_listing, lemma_same_listing, listing, lists};
use crate::text::{
    ascii_lower, begins_with, chars_of, decimal, digit_value, hex4, is_space, lower, matches_at, numeral, numeral_chars,
    numeral_reads_back, parse_u32, push_chars, push_number, push_str, read_u32, same_chars,
    same_text, slice_chars, text_of, to_lower, to_upper, trim, trim_chars, upper,
};
use crate::universal::{
    by_id, by_number, entry_at, entry_values, first_codepoint, first_id, found, IconEntry,
};
use vstd::prelude::*;

verus! {

/// `n` times the character.
pub open spec fn repeated(c: char, n: int) -> Seq<char> {
    Seq::new(
        (if n > 0 {
            n
        } else {
            0
        }) as nat,
        |i: int| c,
    )
}

/// The text padded on the right to a width.
pub open spec fn padded(s: Seq<char>, width: int) -> Seq<char> {
    s + repeated(' ', width - s.len())
}

fn push_repeated(out: &mut Vec<char>, c: char, n: usize)
    ensures
        final(out)@ == old(out)@ + repeated(c, n as int),
{
    for i in 0..n
        invariant
            out@ == old(out)@ + repeated(c, i as int),
    {
        out.push(c);
        assert(out@ =~= old(out)@ + repeated(c, i + 1));
    }
}

fn push_padded(out: &mut Vec<char>, s: &str, width: usize)
    ensures
        final(out)@ == old(out)@ + padded(s@, width as int),
{
    let c = chars_of(s);
    push_chars(out, c.as_slice());
    let pad = if width > c.len() {
        width - c.len()
    } else {
        0
    };
    push_repeated(out, ' ', pad);
    assert(out@ =~= old(out)@ + padded(s@, width as int));
}

fn push_hex4(out: &mut Vec<char>, n: u32)
    ensures
        final(out)@ == old(out)@ + hex4(n as nat),
{
    let d = numeral_chars(n as u64, 16, 4);
    push_chars(out, d.as_slice());
}

// ---------------------------------------------------------------------------
// Table
// ---------------------------------------------------------------------------
/// The table header: titles, and a rule under them.
pub open spec fn header_text() -> Seq<char> {
    padded("GLYPH"@, 4) + " "@ + padded("ID"@, 16) + " "@ + padded("CODEPOINT"@, 8) + " "@ + padded(
        "BLOCK"@,
        16,
    ) + " "@ + padded("UNICODE NAME"@, 44) + " FALLBACK\n"@ + repeated('-', 96) + "\n"@
}

/// One line of the table.
pub open spec fn row_text(e: IconEntry) -> Seq<char> {
    padded(e.icon.glyph@, 4) + " "@ + padded(e.id@, 16) + " U+"@ + hex4(e.codepoint as nat) + "  "@
        + padded(e.block@, 16) + " "@ + padded(e.unicode_name@, 44) + " "@ + e.icon.plain() + "\n"@
}

fn push_header(out: &mut Vec<char>)
    ensures
        final(out)@ == old(out)@ + header_text(),
{
    push_padded(out, "GLYPH", 4);
    push_str(out, " ");
    push_padded(out, "ID", 16);
    push_str(out, " ");
    push_padded(out, "CODEPOINT", 8);
    push_str(out, " ");
    push_padded(out, "BLOCK", 16);
    push_str(out, " ");
    push_padded(out, "UNICODE NAME", 44);
    push_str(out, " FALLBACK\n");
    push_repeated(out, '-', 96);
    push_str(out, "\n");
    assert(out@ =~= old(out)@ + header_text());
}

fn push_row(out: &mut Vec<char>, e: &IconEntry)
    ensures
        final(out)@ == old(out)@ + row_text(*e),
{
    push_padded(out, e.icon.glyph, 4);
    push_str(out, " ");
    push_padded(out, e.id, 16);
    push_str(out, " U+");
    push_hex4(out, e.codepoint);
    push_str(out, "  ");
    push_padded(out, e.block, 16);
    push_str(out, " ");
    push_padded(out, e.unicode_name, 44);
    push_str(out, " ");
    push_str(out, e.icon.fallback_or_glyph());
    push_str(out, "\n");
    assert(out@ =~= old(out)@ + row_text(*e));
}

// ---------------------------------------------------------------------------
// Gallery
// ---------------------------------------------------------------------------
/// The entry belongs to the wanted block, whatever the case; without a wanted
/// block every entry does.
pub open spec fn in_block(e: IconEntry, block: Option<Seq<char>>) -> bool {
    match block {
        None => true,
        Some(b) => lower(e.block@) == lower(b),
    }
}

/// The entries of the wanted block, in order.
pub open spec fn chosen(entries: Seq<IconEntry>, block: Option<Seq<char>>) -> Seq<IconEntry>
    decreases entries.len(),
{
    if entries.len() == 0 {
        seq![]
    } else if in_block(entries.last(), block) {
        chosen(entries.drop_last(), block).push(entries.last())
    } else {
        chosen(entries.drop_last(), block)
    }
}

/// Title of a block, and the table header.
pub open spec fn title_text(block: Seq<char>) -> Seq<char> {
    "== "@ + block + " ==\n"@ + header_text()
}

fn push_title(out: &mut Vec<char>, block: &str)
    ensures
        final(out)@ == old(out)@ + title_text(block@),
{
    push_str(out, "== ");
    push_str(out, block);
    push_str(out, " ==\n");
    push_header(out);
    assert(out@ =~= old(out)@ + title_text(block@));
}

/// The lines of the shown entries: a title and a table header wherever the block
/// changes. Before the first entry the block is empty.
pub open spec fn sections(shown: Seq<IconEntry>) -> Seq<char>
    decreases shown.len(),
{
    if shown.len() == 0 {
        seq![]
    } else {
        let e = shown.last();
        sections(shown.drop_last()) + (if e.block@ != last_block(shown.drop_last()) {
            title_text(e.block@)
        } else {
            seq![]
        }) + row_text(e)
    }
}

/// The block of the last entry, or the empty text.
pub open spec fn last_block(shown: Seq<IconEntry>) -> Seq<char> {
    if shown.len() == 0 {
        seq![]
    } else {
        shown.last().block@
    }
}

/// The count under a listing.
pub open spec fn count_text(n: nat) -> Seq<char> {
    "\n"@ + decimal(n) + " icons\n"@
}

fn push_count(out: &mut Vec<char>, n: usize)
    ensures
        final(out)@ == old(out)@ + count_text(n as nat),
{
    push_str(out, "\n");
    push_number(out, n as u64);
    push_str(out, " icons\n");
    assert(out@ =~= old(out)@ + count_text(n as nat));
}

fn lower_of(s: &str) -> (out: Vec<char>)
    ensures
        out@ == lower(s@),
{
    let c = chars_of(s);
    to_lower(c.as_slice())
}

/// An optional text as characters.
pub open spec fn opt_text(s: Option<&str>) -> Option<Seq<char>> {
    match s {
        None => None,
        Some(t) => Some(t@),
    }
}

/// Every icon of the wanted block, grouped by block; `None` where there is none.
pub fn gallery(entries: &[IconEntry], block: Option<&str>) -> (out: Option<String>)
    ensures
        match out {
            None => chosen(entries@, opt_text(block)).len() == 0,
            Some(s) => {
                let shown = chosen(entries@, opt_text(block));
                shown.len() > 0 && s@ == sections(shown) + count_text(shown.len())
            },
        },
{
    let ghost want = opt_text(block);
    let wanted = match block {
        None => None,
        Some(b) => Some(lower_of(b)),
    };
    let mut out: Vec<char> = Vec::new();
    let mut last: &str = "";
    let mut shown: usize = 0;
    proof {
        reveal_strlit("");
        assert(""@ =~= seq![]);
        assert(out@ =~= sections(seq![]));
    }
    for i in 0..entries.len()
        invariant
            want == opt_text(block),
            match wanted {
                None => want is None,
                Some(w) => want is Some && w@ == lower(want.unwrap()),
            },
            out@ == sections(chosen(entries@.take(i as int), want)),
            last@ == last_block(chosen(entries@.take(i as int), want)),
            shown == chosen(entries@.take(i as int), want).len(),
            shown <= i,
    {
        let e = &entries[i];
        let ghost prev = chosen(entries@.take(i as int), want);
        proof {
            assert(entries@.take(i + 1).drop_last() =~= entries@.take(i as int));
            assert(entries@.take(i + 1).last() == *e);
        }
        let here = match &wanted {
            None => true,
            Some(w) => same_chars(lower_of(e.block).as_slice(), w.as_slice()),
        };
        if here {
            proof {
                assert(prev.push(*e).drop_last() =~= prev);
                assert(prev.push(*e).last() == *e);
            }
            if !same_text(e.block, last) {
                push_title(&mut out, e.block);
                last = e.block;
            }
            push_row(&mut out, e);
            shown += 1;
            assert(out@ =~= sections(prev.push(*e)));
        }
    }
    assert(entries@.take(entries@.len() as int) =~= entries@);
    if shown == 0 {
        return None;
    }
    push_count(&mut out, shown);
    Some(text_of(out.as_slice()))
}

/// The lines of the entries.
pub open spec fn rows_text(v: Seq<IconEntry>) -> Seq<char>
    decreases v.len(),
{
    if v.len() == 0 {
        seq![]
    } else {
        rows_text(v.drop_last()) + row_text(v.last())
    }
}

/// The table of search results. The count stands under it where there are any.
pub fn results_table(results: &[&IconEntry]) -> (s: String)
    ensures
        s@ == header_text() + rows_text(entry_values(results@)) + (if results@.len() > 0 {
            count_text(results@.len())
        } else {
            seq![]
        }),
{
    let n = results.len();
    let ghost values = entry_values(results@);
    let mut out: Vec<char> = Vec::new();
    push_header(&mut out);
    assert(out@ =~= header_text() + rows_text(values.take(0)));
    for i in 0..n
        invariant
            n == results@.len(),
            values == entry_values(results@),
            out@ == header_text() + rows_text(values.take(i as int)),
    {
        proof {
            assert(values.take(i + 1).drop_last() =~= values.take(i as int));
            assert(values.take(i + 1).last() == *results@[i as int]);
        }
        push_row(&mut out, results[i]);
        assert(out@ =~= header_text() + rows_text(values.take(i + 1)));
    }
    assert(values.take(n as int) =~= values);
    if n > 0 {
        push_count(&mut out, n);
    }
    text_of(out.as_slice())
}

// ---------------------------------------------------------------------------
// One icon
// ---------------------------------------------------------------------------
/// What an argument stands for: a codepoint in hexadecimal after `0x` or `U+`,
/// a decimal codepoint, or a catalog id.
pub open spec fn resolved(entries: Seq<IconEntry>, arg: Seq<char>) -> Option<IconEntry> {
    let t = trim(arg);
    let hex = if begins_with(t, "0x"@) || begins_with(t, "U+"@) {
        parse_u32(t.skip(2), 16)
    } else {
        None
    };
    if hex is Some {
        entry_at(entries, first_codepoint(entries, hex.unwrap(), 0))
    } else if parse_u32(t, 10) is Some {
        entry_at(entries, first_codepoint(entries, parse_u32(t, 10).unwrap(), 0))
    } else {
        entry_at(entries, first_id(entries, t, 0))
    }
}

/// Resolve an argument: `0x…`/`U+…` hex, decimal, or a catalog id.
pub fn resolve<'a>(entries: &'a [IconEntry], arg: &str) -> (e: Option<&'a IconEntry>)
    ensures
        found(e) == resolved(entries@, arg@),
{
    let c = chars_of(arg);
    let t = trim_chars(c.as_slice());
    let zx = chars_of("0x");
    let up = chars_of("U+");
    proof {
        reveal_strlit("0x");
        reveal_strlit("U+");
    }
    if matches_at(t.as_slice(), zx.as_slice(), 0) || matches_at(t.as_slice(), up.as_slice(), 0) {
        let rest = slice_chars(t.as_slice(), 2, t.len());
        assert(rest@ =~= t@.skip(2));
        if let Some(cp) = read_u32(rest.as_slice(), 16) {
            return by_number(entries, cp);
        }
    }
    if let Some(cp) = read_u32(t.as_slice(), 10) {
        return by_number(entries, cp);
    }
    let id = text_of(t.as_slice());
    by_id(entries, id.as_str())
}

/// The metadata of one icon.
pub open spec fn details_text(e: IconEntry) -> Seq<char> {
    "glyph      "@ + e.icon.glyph@ + "\nid         "@ + e.id@ + "\nconst      "@ + e.block@ + "::"@
        + upper(e.id@) + "\ncodepoint  U+"@ + hex4(e.codepoint as nat) + " ("@ + decimal(
        e.codepoint as nat,
    ) + ")\nblock      "@ + e.block@ + "\nunicode name "@ + e.unicode_name@ + "\nfallback   "@
        + e.icon.plain() + "\n"@
}

/// The metadata of one icon.
pub fn details(e: &IconEntry) -> (s: String)
    ensures
        s@ == details_text(*e),
{
    let mut out: Vec<char> = Vec::new();
    push_str(&mut out, "glyph      ");
    push_str(&mut out, e.icon.glyph);
    push_str(&mut out, "\nid         ");
    push_str(&mut out, e.id);
    push_str(&mut out, "\nconst      ");
    push_str(&mut out, e.block);
    push_str(&mut out, "::");
    let id = chars_of(e.id);
    let name = to_upper(id.as_slice());
    push_chars(&mut out, name.as_slice());
    push_str(&mut out, "\ncodepoint  U+");
    push_hex4(&mut out, e.codepoint);
    push_str(&mut out, " (");
    push_number(&mut out, e.codepoint as u64);
    push_str(&mut out, ")\nblock      ");
    push_str(&mut out, e.block);
    push_str(&mut out, "\nunicode name ");
    push_str(&mut out, e.unicode_name);
    push_str(&mut out, "\nfallback   ");
    push_str(&mut out, e.icon.fallback_or_glyph());
    push_str(&mut out, "\n");
    assert(out@ =~= details_text(*e));
    text_of(out.as_slice())
}

// ---------------------------------------------------------------------------
// Markdown
// ---------------------------------------------------------------------------
/// Title and introduction of the cheat-sheet.
pub open spec fn preamble() -> Seq<char> {
    "# term-icon verified gallery\n\n"@
        + "Every glyph below passed dual-pass verification (PTY + pixel) on macOS Terminal.app, Windows conhost/WT, and Linux xterm simultaneously.\n\n"@
}

/// Heading and table header of a block. A blank line separates it from the
/// block before it.
pub open spec fn block_heading(block: Seq<char>, first: bool) -> Seq<char> {
    (if first {
        seq![]
    } else {
        "\n"@
    }) + "## "@ + block + "\n\n"@ + "| Glyph | Id | Codepoint | Unicode name | Fallback |\n"@
        + "|---|---|---|---|---|\n"@
}

/// The table line of one icon; an unknown name is a dash.
pub open spec fn markdown_row(e: IconEntry) -> Seq<char> {
    "| "@ + e.icon.glyph@ + " | `"@ + e.id@ + "` | U+"@ + hex4(e.codepoint as nat) + " | "@ + (
    if e.unicode_name@.len() == 0 {
        "—"@
    } else {
        e.unicode_name@
    }) + " | `"@ + e.icon.plain() + "` |\n"@
}

/// The sections of the entries: one per run of equal blocks.
pub open spec fn markdown_sections(v: Seq<IconEntry>) -> Seq<char>
    decreases v.len(),
{
    if v.len() == 0 {
        seq![]
    } else {
        let e = v.last();
        let init = v.drop_last();
        markdown_sections(init) + (if e.block@ != last_block(init) {
            block_heading(e.block@, last_block(init).len() == 0)
        } else {
            seq![]
        }) + markdown_row(e)
    }
}

fn push_markdown_row(out: &mut Vec<char>, e: &IconEntry)
    ensures
        final(out)@ == old(out)@ + markdown_row(*e),
{
    push_str(out, "| ");
    push_str(out, e.icon.glyph);
    push_str(out, " | `");
    push_str(out, e.id);
    push_str(out, "` | U+");
    push_hex4(out, e.codepoint);
    push_str(out, " | ");
    if e.unicode_name.is_empty() {
        push_str(out, "—");
    } else {
        push_str(out, e.unicode_name);
    }
    push_str(out, " | `");
    push_str(out, e.icon.fallback_or_glyph());
    push_str(out, "` |\n");
    assert(out@ =~= old(out)@ + markdown_row(*e));
}

fn push_block_heading(out: &mut Vec<char>, block: &str, first: bool)
    ensures
        final(out)@ == old(out)@ + block_heading(block@, first),
{
    if !first {
        push_str(out, "\n");
    }
    push_str(out, "## ");
    push_str(out, block);
    push_str(out, "\n\n");
    push_str(out, "| Glyph | Id | Codepoint | Unicode name | Fallback |\n");
    push_str(out, "|---|---|---|---|---|\n");
    assert(out@ =~= old(out)@ + block_heading(block@, first));
}

/// Deterministic Markdown cheat-sheet: one section per block, in the order of
/// the entries.
pub fn markdown(entries: &[IconEntry]) -> (s: String)
    ensures
        s@ == preamble() + markdown_sections(entries@),
{
    let mut out: Vec<char> = Vec::new();
    push_str(&mut out, "# term-icon verified gallery\n\n");
    push_str(
        &mut out,
        "Every glyph below passed dual-pass verification (PTY + pixel) on macOS Terminal.app, Windows conhost/WT, and Linux xterm simultaneously.\n\n",
    );
    let mut last: &str = "";
    proof {
        reveal_strlit("");
        assert(""@ =~= seq![]);
        assert(out@ =~= preamble() + markdown_sections(entries@.take(0)));
    }
    for i in 0..entries.len()
        invariant
            out@ == preamble() + markdown_sections(entries@.take(i as int)),
            last@ == last_block(entries@.take(i as int)),
    {
        let e = &entries[i];
        let ghost init = entries@.take(i as int);
        proof {
            assert(entries@.take(i + 1).drop_last() =~= init);
            assert(entries@.take(i + 1).last() == *e);
        }
        if !same_text(e.block, last) {
            push_block_heading(&mut out, e.block, last.is_empty());
            last = e.block;
        }
        push_markdown_row(&mut out, e);
        assert(out@ =~= preamble() + markdown_sections(entries@.take(i + 1)));
    }
    assert(entries@.take(entries@.len() as int) =~= entries@);
    text_of(out.as_slice())
}

// ---------------------------------------------------------------------------
// Laws
// ---------------------------------------------------------------------------
/// A gallery shows exactly the entries of the wanted block, and without a wanted
/// block every entry, in order.
pub proof fn galleries_show_exactly_the_block(
    entries: Seq<IconEntry>,
    block: Option<Seq<char>>,
    e: IconEntry,
)
    ensures
        chosen(entries, None) == entries,
        chosen(entries, block).contains(e) <==> entries.contains(e) && in_block(e, block),
    decreases entries.len(),
{
    if entries.len() > 0 {
        let init = entries.drop_last();
        galleries_show_exactly_the_block(init, block, e);
        assert(chosen(entries, None) =~= entries);
        let a = chosen(init, block);
        let b = chosen(entries, block);
        if init.contains(e) {
            let i = choose|i: int| 0 <= i < init.len() && init[i] == e;
            assert(entries[i] == e);
        }
        if a.contains(e) {
            let i = choose|i: int| 0 <= i < a.len() && a[i] == e;
            assert(b[i] == e);
        }
        if entries.contains(e) && !init.contains(e) {
            let i = choose|i: int| 0 <= i < entries.len() && entries[i] == e;
            assert(i == entries.len() - 1) by {
                if i < init.len() {
                    assert(init[i] == e);
                }
            }
            if in_block(e, block) {
                assert(b[b.len() - 1] == e);
            }
        }
        if b.contains(e) && !a.contains(e) {
            let i = choose|i: int| 0 <= i < b.len() && b[i] == e;
            if i < a.len() {
                assert(a[i] == e);
            }
            assert(entries[entries.len() - 1] == e);
        }
    }
}

/// A codepoint as the listings print it resolves to its icon.
pub proof fn printed_codepoints_resolve(entries: Seq<IconEntry>, cp: u32)
    ensures
        resolved(entries, "U+"@ + hex4(cp as nat)) == entry_at(
            entries,
            first_codepoint(entries, cp, 0),
        ),
{
    reveal_strlit("U+");
    reveal_strlit("0x");
    let digits = hex4(cp as nat);
    let t = "U+"@ + digits;
    numeral_reads_back(cp as nat, 16, 4);
    assert(t[0] == 'U');
    assert(t.last() == digits.last());
    let d = digits.last();
    assert(digit_value(digits[digits.len() - 1]) is Some);
    assert(!is_space(d));
    assert(trim(t) == t);
    assert(t.skip(2) =~= digits);
    assert(t.subrange(0, 2) =~= "U+"@);
    assert(begins_with(t, "U+"@));
}

// ---------------------------------------------------------------------------
// What the tables read
// ---------------------------------------------------------------------------
/// `n` spaces, none where `n` is negative.
pub open spec fn spaces(n: int) -> Seq<char> {
    Seq::new(
        if n > 0 {
            n as nat
        } else {
            0
        },
        |i: int| ' ',
    )
}

proof fn lemma_spaces(n: int)
    ensures
        repeated(' ', n) == spaces(n),
{
    assert(repeated(' ', n) =~= spaces(n));
}

/// A row of a table gives the glyph, the id, the codepoint, the block, the name and
/// the plain text, each but the codepoint filled up to its column.
pub proof fn rows_fill_their_columns(e: IconEntry)
    ensures
        row_text(e) == (e.icon.glyph@ + spaces(4 - e.icon.glyph@.len())) + " "@ + (e.id@ + spaces(
            16 - e.id@.len(),
        )) + " U+"@ + numeral(e.codepoint as nat, 16, 4) + "  "@ + (e.block@ + spaces(
            16 - e.block@.len(),
        )) + " "@ + (e.unicode_name@ + spaces(44 - e.unicode_name@.len())) + " "@ + (
        if e.icon.fallback@.len() > 0 {
            e.icon.fallback@
        } else {
            e.icon.glyph@
        }) + "\n"@,
{
    lemma_spaces(4 - e.icon.glyph@.len());
    lemma_spaces(16 - e.id@.len());
    lemma_spaces(16 - e.block@.len());
    lemma_spaces(44 - e.unicode_name@.len());
}

/// Above the rows stand the names of the columns and a rule of ninety-six dashes.
pub proof fn tables_name_their_columns()
    ensures
        header_text() == "GLYPH"@ + " "@ + ("ID"@ + spaces(14)) + " "@ + "CODEPOINT"@ + " "@ + (
        "BLOCK"@ + spaces(11)) + " "@ + ("UNICODE NAME"@ + spaces(32)) + " FALLBACK\n"@ + Seq::new(
            96,
            |i: int| '-',
        ) + "\n"@,
{
    reveal_strlit("GLYPH");
    reveal_strlit("ID");
    reveal_strlit("CODEPOINT");
    reveal_strlit("BLOCK");
    reveal_strlit("UNICODE NAME");
    lemma_spaces(14);
    lemma_spaces(11);
    lemma_spaces(32);
    assert(padded("GLYPH"@, 4) =~= "GLYPH"@);
    assert(padded("CODEPOINT"@, 8) =~= "CODEPOINT"@);
    assert(repeated('-', 96) =~= Seq::new(96, |i: int| '-'));
}

/// Icons of one block that follow one another share one title: it stands above the
/// first of them, and their rows follow without another.
pub proof fn each_block_has_one_title(
    before: Seq<IconEntry>,
    group: Seq<IconEntry>,
    block: Seq<char>,
)
    requires
        group.len() > 0,
        block.len() > 0,
        forall|i: int| 0 <= i < group.len() ==> (#[trigger] group[i]).block@ == block,
        before.len() > 0 ==> before.last().block@ != block,
    ensures
        sections(before + group) == sections(before) + ("== "@ + block + " ==\n"@ + header_text())
            + rows_text(group),
        markdown_sections(before + group) == markdown_sections(before) + block_heading(
            block,
            last_block(before).len() == 0,
        ) + markdown_rows(group),
    decreases group.len(),
{
    let all = before + group;
    let init = group.drop_last();
    assert(all.drop_last() =~= before + init);
    assert(all.last() == group.last());
    assert(group[group.len() - 1].block@ == block);
    if init.len() == 0 {
        assert(before + init =~= before);
        assert(rows_text(init) =~= seq![]);
        assert(markdown_rows(init) =~= seq![]);
        assert(rows_text(group) =~= row_text(group.last()));
        assert(markdown_rows(group) =~= markdown_row(group.last()));
    } else {
        assert forall|i: int| 0 <= i < init.len() implies (#[trigger] init[i]).block@ == block by {
            assert(group[i].block@ == block);
        }
        each_block_has_one_title(before, init, block);
        assert((before + init).last() == init.last());
        assert(init[init.len() - 1].block@ == block);
        assert(sections(all) =~= sections(before) + ("== "@ + block + " ==\n"@ + header_text())
            + rows_text(group));
        assert(markdown_sections(all) =~= markdown_sections(before) + block_heading(
            block,
            last_block(before).len() == 0,
        ) + markdown_rows(group));
    }
}

/// Markdown rows one below the other.
pub open spec fn markdown_rows(v: Seq<IconEntry>) -> Seq<char>
    decreases v.len(),
{
    if v.len() == 0 {
        seq![]
    } else {
        markdown_rows(v.drop_last()) + markdown_row(v.last())
    }
}

/// How a block and an icon read in Markdown: a blank line before every heading but
/// the first, then the heading, the columns and the rule. A nameless icon has a
/// dash for a name.
pub proof fn markdown_reads_as_tables(e: IconEntry, block: Seq<char>)
    ensures
        block_heading(block, true) == "## "@ + block + "\n\n"@
            + "| Glyph | Id | Codepoint | Unicode name | Fallback |\n"@
            + "|---|---|---|---|---|\n"@,
        block_heading(block, false) == "\n"@ + block_heading(block, true),
        markdown_row(e) == "| "@ + e.icon.glyph@ + " | `"@ + e.id@ + "` | U+"@ + numeral(
            e.codepoint as nat,
            16,
            4,
        ) + " | "@ + (if e.unicode_name@.len() > 0 {
            e.unicode_name@
        } else {
            "—"@
        }) + " | `"@ + (if e.icon.fallback@.len() > 0 {
            e.icon.fallback@
        } else {
            e.icon.glyph@
        }) + "` |\n"@,
{
    assert(seq![] + "## "@ =~= "## "@);
    assert(block_heading(block, false) =~= "\n"@ + block_heading(block, true));
}

/// What is said of one icon, line by line.
pub proof fn details_name_every_part(e: IconEntry)
    ensures
        details_text(e) == "glyph      "@ + e.icon.glyph@ + "\nid         "@ + e.id@
            + "\nconst      "@ + e.block@ + "::"@ + upper(e.id@) + "\ncodepoint  U+"@ + numeral(
            e.codepoint as nat,
            16,
            4,
        ) + " ("@ + numeral(e.codepoint as nat, 10, 1) + ")\nblock      "@ + e.block@
            + "\nunicode name "@ + e.unicode_name@ + "\nfallback   "@ + (
        if e.icon.fallback@.len() > 0 {
            e.icon.fallback@
        } else {
            e.icon.glyph@
        }) + "\n"@,
{
}

/// The two texts are the same but for the case of ASCII letters.
pub open spec fn same_but_for_case(a: Seq<char>, b: Seq<char>) -> bool {
    &&& a.len() == b.len()
    &&& forall|i: int| 0 <= i < a.len() ==> same_letter(#[trigger] a[i], b[i])
}

/// The two characters are the same, or a letter in both cases.
pub open spec fn same_letter(a: char, b: char) -> bool {
    ||| a == b
    ||| 0x41 <= a as u32 <= 0x5A && b as u32 == a as u32 + 32
    ||| 0x41 <= b as u32 <= 0x5A && a as u32 == b as u32 + 32
}

proof fn lemma_same_letter(a: char, b: char)
    ensures
        ascii_lower(a) == ascii_lower(b) <==> same_letter(a, b),
{
}

proof fn lemma_same_but_for_case(a: Seq<char>, b: Seq<char>)
    ensures
        lower(a) == lower(b) <==> same_but_for_case(a, b),
{
    if lower(a) == lower(b) {
        assert(lower(a).len() == lower(b).len());
        assert forall|i: int| 0 <= i < a.len() implies same_letter(#[trigger] a[i], b[i]) by {
            assert(lower(a)[i] == lower(b)[i]);
            lemma_same_letter(a[i], b[i]);
        }
    }
    if same_but_for_case(a, b) {
        assert forall|i: int| 0 <= i < a.len() implies lower(a)[i] == lower(b)[i] by {
            assert(same_letter(a[i], b[i]));
            lemma_same_letter(a[i], b[i]);
        }
        assert(lower(a) =~= lower(b));
    }
}

/// The positions of the entries of a block, the case of letters aside, in ascending
/// order.
pub open spec fn lists_block(at: Seq<int>, entries: Seq<IconEntry>, block: Seq<char>) -> bool {
    lists(at, entries.len() as int, |k: int| same_but_for_case(entries[k].block@, block))
}

proof fn lemma_chosen(entries: Seq<IconEntry>, block: Seq<char>)
    ensures
        ({
            let at = listing(
                entries.len() as int,
                |k: int| same_but_for_case(entries[k].block@, block),
            );
            &&& chosen(entries, Some(block)).len() == at.len()
            &&& forall|i: int|
                0 <= i < at.len() ==> #[trigger] chosen(entries, Some(block))[i] == entries[at[i]]
        }),
    decreases entries.len(),
{
    if entries.len() > 0 {
        let w = entries.drop_last();
        let n = w.len() as int;
        let f = |k: int| same_but_for_case(entries[k].block@, block);
        let g = |k: int| same_but_for_case(w[k].block@, block);
        lemma_chosen(w, block);
        assert forall|k: int| 0 <= k < n implies #[trigger] f(k) == g(k) by {
            assert(w[k] == entries[k]);
        }
        lemma_same_listing(n, f, g);
        lemma_listing(n, f);
        lemma_same_but_for_case(entries.last().block@, block);
        let at = listing(entries.len() as int, f);
        let init = listing(n, f);
        assert(f(n) == in_block(entries.last(), Some(block)));
        assert forall|i: int| 0 <= i < at.len() implies #[trigger] chosen(entries, Some(block))[i]
            == entries[at[i]] by {
            if i < init.len() {
                assert(chosen(w, Some(block))[i] == w[init[i]]);
                assert(at[i] == init[i]);
                assert(0 <= init[i] < n);
            }
        }
    }
}

/// A gallery of one block shows the entries of that block, each once and in their
/// order. The case of the block's letters does not matter.
pub proof fn galleries_keep_the_order(entries: Seq<IconEntry>, block: Seq<char>)
    ensures
        exists|at: Seq<int>| #[trigger]
            lists_block(at, entries, block) && chosen(entries, Some(block)).len() == at.len()
                && forall|i: int|
                0 <= i < at.len() ==> #[trigger] chosen(entries, Some(block))[i]
                    == entries[at[i]],
{
    let f = |k: int| same_but_for_case(entries[k].block@, block);
    lemma_chosen(entries, block);
    lemma_listing(entries.len() as int, f);
    assert(lists_block(listing(entries.len() as int, f), entries, block));
}

/// How an icon is asked for, white space aside: by its codepoint in hexadecimal
/// behind `0x` or `U+`, by its codepoint in decimal, or by its id.
pub proof fn icons_are_asked_for_by_number_or_id(
    entries: Seq<IconEntry>,
    arg: Seq<char>,
    digits: Seq<char>,
    n: u32,
)
    ensures
        trim(arg) == "0x"@ + digits && parse_u32(digits, 16) == Some(n) ==> resolved(entries, arg)
            == entry_at(entries, first_codepoint(entries, n, 0)),
        trim(arg) == "U+"@ + digits && parse_u32(digits, 16) == Some(n) ==> resolved(entries, arg)
            == entry_at(entries, first_codepoint(entries, n, 0)),
        trim(arg) == digits && parse_u32(digits, 10) == Some(n) && !asks_by_hex(digits) ==> resolved(
            entries,
            arg,
        ) == entry_at(entries, first_codepoint(entries, n, 0)),
        parse_u32(trim(arg), 10) is None && !asks_by_hex(trim(arg)) ==> resolved(entries, arg)
            == entry_at(entries, first_id(entries, trim(arg), 0)),
{
    reveal_strlit("0x");
    reveal_strlit("U+");
    let t = trim(arg);
    let (a, b) = ("0x"@ + digits, "U+"@ + digits);
    assert(a.subrange(0, 2) =~= "0x"@);
    assert(b.subrange(0, 2) =~= "U+"@);
    assert(a.skip(2) =~= digits);
    assert(b.skip(2) =~= digits);
    if begins_with(t, "0x"@) {
        assert(t[0] == t.subrange(0, 2)[0] && t[1] == t.subrange(0, 2)[1]);
    }
    if begins_with(t, "U+"@) {
        assert(t[0] == t.subrange(0, 2)[0] && t[1] == t.subrange(0, 2)[1]);
    }
}

/// The text begins like a hexadecimal codepoint.
pub open spec fn asks_by_hex(t: Seq<char>) -> bool {
    &&& t.len() >= 2
    &&& t[0] == '0' && t[1] == 'x' || t[0] == 'U' && t[1] == '+'
}

/// Under a table stands how many icons it has. The cheat-sheet begins with its title
/// and with what its icons have in common.
pub proof fn listings_count_and_introduce(n: nat)
    ensures
        count_text(n) == "\n"@ + numeral(n, 10, 1) + " icons\n"@,
        preamble() == "# term-icon verified gallery\n\n"@
            + "Every glyph below passed dual-pass verification (PTY + pixel) on macOS Terminal.app, Windows conhost/WT, and Linux xterm simultaneously.\n\n"@,
{
}

} // verus!
