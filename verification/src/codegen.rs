//! The generated manifest as Rust source: one constant per icon, and the table
//! that lists them.
use crate::catalog::{id_text, ids_are_unique, is_entry, Candidate};
use crate::manifest::{
    entries_come_from_candidates, id_mark, is_entry_for, is_manifest, line_id,
    manifests_are_sorted_and_unique, of_candidate, scraped, Entry,
};
use crate::text::{
    ascii_upper, digit_value, hex4, index_from, lines, numeral, numeral_chars, numeral_reads_back,
    occurs_at, position, push_chars, push_str, text_of, upper,
};
use vstd::prelude::*;

verus! {

// ---------------------------------------------------------------------------
// String literals
// ---------------------------------------------------------------------------
/// A character inside a string literal: printable ASCII stands for itself, quotes
/// and backslashes behind a backslash, everything else by its number.
pub open spec fn escaped_char(c: char) -> Seq<char> {
    if c == '"' || c == '\\' {
        seq!['\\', c]
    } else if ' ' <= c <= '~' {
        seq![c]
    } else {
        "\\u{"@ + numeral(c as nat, 16, 1) + "}"@
    }
}

/// A text inside a string literal.
pub open spec fn escaped(s: Seq<char>) -> Seq<char>
    decreases s.len(),
{
    if s.len() == 0 {
        seq![]
    } else {
        escaped(s.drop_last()) + escaped_char(s.last())
    }
}

/// A text as a string literal.
pub open spec fn literal(s: Seq<char>) -> Seq<char> {
    seq!['"'] + escaped(s) + seq!['"']
}

fn push_escaped(out: &mut Vec<char>, c: char)
    ensures
        final(out)@ == old(out)@ + escaped_char(c),
{
    if c == '"' || c == '\\' {
        out.push('\\');
        out.push(c);
    } else if ' ' <= c && c <= '~' {
        out.push(c);
    } else {
        push_str(out, "\\u{");
        let d = numeral_chars(c as u64, 16, 1);
        push_chars(out, d.as_slice());
        push_str(out, "}");
    }
    assert(out@ =~= old(out)@ + escaped_char(c));
}

fn push_literal(out: &mut Vec<char>, s: &[char])
    ensures
        final(out)@ == old(out)@ + literal(s@),
{
    out.push('"');
    assert(escaped(s@.take(0)) =~= seq![]);
    assert(out@ =~= old(out)@ + seq!['"'] + escaped(s@.take(0)));
    for i in 0..s.len()
        invariant
            out@ == old(out)@ + seq!['"'] + escaped(s@.take(i as int)),
    {
        assert(s@.take(i + 1).drop_last() =~= s@.take(i as int));
        push_escaped(out, s[i]);
        assert(out@ =~= old(out)@ + seq!['"'] + escaped(s@.take(i + 1)));
    }
    assert(s@.take(s@.len() as int) =~= s@);
    out.push('"');
    assert(out@ =~= old(out)@ + literal(s@));
}

fn push_str_literal(out: &mut Vec<char>, s: &str)
    ensures
        final(out)@ == old(out)@ + literal(s@),
{
    let c = crate::text::chars_of(s);
    push_literal(out, c.as_slice());
}

// ---------------------------------------------------------------------------
// Lines
// ---------------------------------------------------------------------------
/// The lines as a text, each with a line feed behind it.
pub open spec fn joined(ls: Seq<Seq<char>>) -> Seq<char>
    decreases ls.len(),
{
    if ls.len() == 0 {
        seq![]
    } else {
        ls[0] + seq!['\n'] + joined(ls.skip(1))
    }
}

proof fn lemma_joined_push(ls: Seq<Seq<char>>, line: Seq<char>)
    ensures
        joined(ls.push(line)) == joined(ls) + line + seq!['\n'],
    decreases ls.len(),
{
    let all = ls.push(line);
    if ls.len() == 0 {
        assert(all.skip(1) =~= seq![]);
        assert(joined(all.skip(1)) =~= seq![]);
        assert(joined(all) =~= joined(ls) + line + seq!['\n']);
    } else {
        lemma_joined_push(ls.skip(1), line);
        assert(all.skip(1) =~= ls.skip(1).push(line));
        assert(joined(all) =~= joined(ls) + line + seq!['\n']);
    }
}

/// What stands before the id of an icon's line.
pub open spec fn line_head(e: Entry) -> Seq<char> {
    "pub const "@ + e.const_name@ + ": IconEntry = IconEntry { "@
}

/// What stands behind the id of an icon's line.
pub open spec fn line_tail(e: Entry) -> Seq<char> {
    ", codepoint: 0x"@ + hex4(e.codepoint as nat) + ", icon: SafeIcon { glyph: "@ + literal(
        seq![e.glyph],
    ) + ", fallback: "@ + literal(e.fallback@) + " }, block: "@ + literal(e.module@)
        + ", unicode_name: "@ + literal(e.unicode_name@) + " };"@
}

/// The line of an icon: its constant.
pub open spec fn entry_line(e: Entry) -> Seq<char> {
    line_head(e) + "id: "@ + literal(e.id@) + line_tail(e)
}

/// The line of an icon in the table.
pub open spec fn table_line(e: Entry) -> Seq<char> {
    "    "@ + e.const_name@ + ","@
}

/// The lines before the constants.
pub open spec fn head_lines() -> Seq<Seq<char>> {
    seq![
        "// @generated by manifest-gen"@,
        "use crate::universal::IconEntry;"@,
        "use crate::SafeIcon;"@,
        ""@,
    ]
}

/// The lines between the constants and the table's own.
pub open spec fn table_head() -> Seq<Seq<char>> {
    seq![""@, "pub const ICON_ENTRIES: &[IconEntry] = &["@]
}

/// The lines of the manifest: the constants, then the table that lists them.
pub open spec fn source_lines(v: Seq<Entry>) -> Seq<Seq<char>> {
    head_lines() + v.map_values(|e: Entry| entry_line(e)) + table_head() + v.map_values(
        |e: Entry| table_line(e),
    ) + seq!["];"@]
}

/// The manifest as Rust source.
pub open spec fn source_text(v: Seq<Entry>) -> Seq<char> {
    joined(source_lines(v))
}

fn push_entry_line(out: &mut Vec<char>, e: &Entry)
    ensures
        final(out)@ == old(out)@ + entry_line(*e),
{
    push_str(out, "pub const ");
    push_str(out, e.const_name.as_str());
    push_str(out, ": IconEntry = IconEntry { ");
    push_str(out, "id: ");
    push_str_literal(out, e.id.as_str());
    push_str(out, ", codepoint: 0x");
    let d = numeral_chars(e.codepoint as u64, 16, 4);
    push_chars(out, d.as_slice());
    push_str(out, ", icon: SafeIcon { glyph: ");
    let mut glyph: Vec<char> = Vec::new();
    glyph.push(e.glyph);
    assert(glyph@ =~= seq![e.glyph]);
    push_literal(out, glyph.as_slice());
    push_str(out, ", fallback: ");
    push_str_literal(out, e.fallback);
    push_str(out, " }, block: ");
    push_str_literal(out, e.module);
    push_str(out, ", unicode_name: ");
    push_str_literal(out, e.unicode_name.as_str());
    push_str(out, " };");
    assert(out@ =~= old(out)@ + entry_line(*e));
}

fn push_line(out: &mut Vec<char>, line: &str, Ghost(ls): Ghost<Seq<Seq<char>>>)
    requires
        old(out)@ == joined(ls),
    ensures
        final(out)@ == joined(ls.push(line@)),
{
    push_str(out, line);
    out.push('\n');
    proof {
        lemma_joined_push(ls, line@);
    }
    assert(out@ =~= joined(ls.push(line@)));
}

/// The manifest as Rust source.
pub fn manifest_source(entries: &[Entry]) -> (s: String)
    ensures
        s@ == source_text(entries@),
{
    let ghost v = entries@;
    let ghost consts = v.map_values(|e: Entry| entry_line(e));
    let ghost table = v.map_values(|e: Entry| table_line(e));
    let mut out: Vec<char> = Vec::new();
    let ghost mut ls: Seq<Seq<char>> = seq![];
    assert(out@ =~= joined(ls));
    push_line(&mut out, "// @generated by manifest-gen", Ghost(ls));
    proof {
        ls = ls.push("// @generated by manifest-gen"@);
    }
    push_line(&mut out, "use crate::universal::IconEntry;", Ghost(ls));
    proof {
        ls = ls.push("use crate::universal::IconEntry;"@);
    }
    push_line(&mut out, "use crate::SafeIcon;", Ghost(ls));
    proof {
        ls = ls.push("use crate::SafeIcon;"@);
    }
    push_line(&mut out, "", Ghost(ls));
    proof {
        ls = ls.push(""@);
        assert(ls =~= head_lines() + consts.take(0));
    }
    for i in 0..entries.len()
        invariant
            v == entries@,
            consts == v.map_values(|e: Entry| entry_line(e)),
            ls == head_lines() + consts.take(i as int),
            out@ == joined(ls),
    {
        push_entry_line(&mut out, &entries[i]);
        out.push('\n');
        proof {
            lemma_joined_push(ls, entry_line(v[i as int]));
            assert(out@ =~= joined(ls.push(entry_line(v[i as int]))));
            ls = ls.push(entry_line(v[i as int]));
            assert(ls =~= head_lines() + consts.take(i + 1));
        }
    }
    assert(consts.take(consts.len() as int) =~= consts);
    push_line(&mut out, "", Ghost(ls));
    proof {
        ls = ls.push(""@);
    }
    push_line(&mut out, "pub const ICON_ENTRIES: &[IconEntry] = &[", Ghost(ls));
    proof {
        ls = ls.push("pub const ICON_ENTRIES: &[IconEntry] = &["@);
        assert(ls =~= head_lines() + consts + table_head() + table.take(0));
    }
    for i in 0..entries.len()
        invariant
            v == entries@,
            table == v.map_values(|e: Entry| table_line(e)),
            ls == head_lines() + consts + table_head() + table.take(i as int),
            out@ == joined(ls),
    {
        push_str(&mut out, "    ");
        push_str(&mut out, entries[i].const_name.as_str());
        push_str(&mut out, ",");
        out.push('\n');
        proof {
            lemma_joined_push(ls, table_line(v[i as int]));
            assert(out@ =~= joined(ls.push(table_line(v[i as int]))));
            ls = ls.push(table_line(v[i as int]));
            assert(ls =~= head_lines() + consts + table_head() + table.take(i + 1));
        }
    }
    assert(table.take(table.len() as int) =~= table);
    push_line(&mut out, "];", Ghost(ls));
    assert(ls.push("];"@) =~= source_lines(v));
    text_of(out.as_slice())
}

// ---------------------------------------------------------------------------
// Laws
// ---------------------------------------------------------------------------
/// A generated manifest leads back to its ids: scraping the source gives exactly
/// the ids of the icons, in order.
pub proof fn sources_lead_back_to_their_ids(
    v: Seq<Entry>,
    keep: spec_fn(Seq<char>) -> bool,
    names: Map<u32, String>,
)
    requires
        is_manifest(v, keep, names),
    ensures
        scraped(lines(source_text(v))) == v.map_values(|e: Entry| e.id@),
{
    entries_come_from_candidates(v, keep, names);
    manifests_are_sorted_and_unique(v, keep, names);
    assert forall|i: int| 0 <= i < v.len() implies named_plainly(#[trigger] v[i]) by {
        assert(of_candidate(v[i], names));
        lemma_named_plainly(v[i], names);
    }
    assert forall|i: int, j: int| 0 <= i < j < v.len() implies (#[trigger] v[i]).id@ != (
    #[trigger] v[j]).id@ by {
        assert(v[i].codepoint < v[j].codepoint);
        assert(of_candidate(v[i], names) && of_candidate(v[j], names));
        let a = choose|c: Candidate| #[trigger]
            is_entry_for(v[i], c, names) && is_entry(c, c.codepoint as int);
        let b = choose|c: Candidate| #[trigger]
            is_entry_for(v[j], c, names) && is_entry(c, c.codepoint as int);
        if v[i].id@ == v[j].id@ {
            ids_are_unique(a.block, a.codepoint as int, b.block, b.codepoint as int);
        }
    }
    lemma_source_is_inline(v);
    lemma_lines_of_joined(source_lines(v));
    lemma_scraped_source(v);
}

/// The text has no line break.
pub open spec fn inline(s: Seq<char>) -> bool {
    forall|i: int| 0 <= i < s.len() ==> #[trigger] s[i] != '\n' && s[i] != '\r'
}

/// The text can stand in a string literal as it is.
pub open spec fn plain(s: Seq<char>) -> bool {
    forall|i: int|
        0 <= i < s.len() ==> ' ' <= #[trigger] s[i] <= '~' && s[i] != '"' && s[i] != '\\'
}

/// The icon's id and constant can stand in source as they are.
pub open spec fn named_plainly(e: Entry) -> bool {
    plain(e.id@) && plain(e.const_name@)
}

proof fn lemma_named_plainly(e: Entry, names: Map<u32, String>)
    requires
        of_candidate(e, names),
    ensures
        named_plainly(e),
{
    let c = choose|c: Candidate| #[trigger]
        is_entry_for(e, c, names) && is_entry(c, c.codepoint as int);
    let x = hex4(c.codepoint as nat);
    let p = c.block.prefix_text();
    numeral_reads_back(c.codepoint as nat, 16, 4);
    reveal_strlit("ascii");
    reveal_strlit("box");
    reveal_strlit("block");
    reveal_strlit("braille");
    let id = e.id@;
    assert(id == id_text(c.block, c.codepoint as int));
    assert forall|i: int| 0 <= i < id.len() implies ' ' <= #[trigger] id[i] <= '~' && id[i] != '"'
        && id[i] != '\\' by {
        if i < p.len() {
            assert(id[i] == p[i]);
        } else if i > p.len() {
            assert(id[i] == x[i - p.len() - 1]);
            assert(digit_value(x[i - p.len() - 1]) is Some);
        }
    }
    let k = e.const_name@;
    assert forall|i: int| 0 <= i < k.len() implies ' ' <= #[trigger] k[i] <= '~' && k[i] != '"'
        && k[i] != '\\' by {
        assert(k[i] == ascii_upper(id[i]));
    }
}

proof fn lemma_inline_pair(a: Seq<char>, b: Seq<char>)
    requires
        inline(a),
        inline(b),
    ensures
        inline(a + b),
{
}

proof fn lemma_literal_is_inline(s: Seq<char>)
    ensures
        inline(literal(s)),
{
    lemma_escaped_is_inline(s);
}

proof fn lemma_escaped_is_inline(s: Seq<char>)
    ensures
        inline(escaped(s)),
    decreases s.len(),
{
    if s.len() > 0 {
        lemma_escaped_is_inline(s.drop_last());
        let c = s.last();
        let d = numeral(c as nat, 16, 1);
        numeral_reads_back(c as nat, 16, 1);
        reveal_strlit("\\u{");
        reveal_strlit("}");
        assert forall|i: int| 0 <= i < d.len() implies #[trigger] d[i] != '\n' && d[i] != '\r' by {
            assert(digit_value(d[i]) is Some);
        }
        lemma_inline_pair("\\u{"@, d);
        lemma_inline_pair("\\u{"@ + d, "}"@);
        lemma_inline_pair(escaped(s.drop_last()), escaped_char(c));
    }
}

/// A plain text is its own literal's inside.
proof fn lemma_plain_is_escaped(s: Seq<char>)
    requires
        plain(s),
    ensures
        escaped(s) == s,
    decreases s.len(),
{
    if s.len() > 0 {
        assert(plain(s.drop_last())) by {
            assert forall|i: int| 0 <= i < s.len() - 1 implies ' ' <= #[trigger] s.drop_last()[i]
                <= '~' && s.drop_last()[i] != '"' && s.drop_last()[i] != '\\' by {
                assert(s[i] == s.drop_last()[i]);
            }
        }
        lemma_plain_is_escaped(s.drop_last());
        assert(s[s.len() - 1] == s.last());
        assert(s.drop_last() + seq![s.last()] =~= s);
    } else {
        assert(escaped(s) =~= s);
    }
}

proof fn lemma_entry_line_is_inline(e: Entry)
    requires
        named_plainly(e),
    ensures
        inline(entry_line(e)),
        inline(table_line(e)),
{
    reveal_strlit("pub const ");
    reveal_strlit(": IconEntry = IconEntry { ");
    reveal_strlit("id: ");
    reveal_strlit(", codepoint: 0x");
    reveal_strlit(", icon: SafeIcon { glyph: ");
    reveal_strlit(", fallback: ");
    reveal_strlit(" }, block: ");
    reveal_strlit(", unicode_name: ");
    reveal_strlit(" };");
    reveal_strlit("    ");
    reveal_strlit(",");
    let x = hex4(e.codepoint as nat);
    numeral_reads_back(e.codepoint as nat, 16, 4);
    assert forall|i: int| 0 <= i < x.len() implies #[trigger] x[i] != '\n' && x[i] != '\r' by {
        assert(digit_value(x[i]) is Some);
    }
    lemma_literal_is_inline(e.id@);
    lemma_literal_is_inline(seq![e.glyph]);
    lemma_literal_is_inline(e.fallback@);
    lemma_literal_is_inline(e.module@);
    lemma_literal_is_inline(e.unicode_name@);
    let t1 = ", codepoint: 0x"@ + x;
    lemma_inline_pair(", codepoint: 0x"@, x);
    let t2 = t1 + ", icon: SafeIcon { glyph: "@;
    lemma_inline_pair(t1, ", icon: SafeIcon { glyph: "@);
    let t3 = t2 + literal(seq![e.glyph]);
    lemma_inline_pair(t2, literal(seq![e.glyph]));
    let t4 = t3 + ", fallback: "@;
    lemma_inline_pair(t3, ", fallback: "@);
    let t5 = t4 + literal(e.fallback@);
    lemma_inline_pair(t4, literal(e.fallback@));
    let t6 = t5 + " }, block: "@;
    lemma_inline_pair(t5, " }, block: "@);
    let t7 = t6 + literal(e.module@);
    lemma_inline_pair(t6, literal(e.module@));
    let t8 = t7 + ", unicode_name: "@;
    lemma_inline_pair(t7, ", unicode_name: "@);
    let t9 = t8 + literal(e.unicode_name@);
    lemma_inline_pair(t8, literal(e.unicode_name@));
    lemma_inline_pair(t9, " };"@);
    let h = "pub const "@ + e.const_name@;
    lemma_inline_pair("pub const "@, e.const_name@);
    lemma_inline_pair(h, ": IconEntry = IconEntry { "@);
    lemma_inline_pair(line_head(e), "id: "@);
    lemma_inline_pair(line_head(e) + "id: "@, literal(e.id@));
    lemma_inline_pair(line_head(e) + "id: "@ + literal(e.id@), line_tail(e));
    lemma_inline_pair("    "@, e.const_name@);
    lemma_inline_pair("    "@ + e.const_name@, ","@);
}

proof fn lemma_source_is_inline(v: Seq<Entry>)
    requires
        forall|i: int| 0 <= i < v.len() ==> named_plainly(#[trigger] v[i]),
    ensures
        forall|k: int| 0 <= k < source_lines(v).len() ==> inline(#[trigger] source_lines(v)[k]),
{
    let ls = source_lines(v);
    let n = v.len() as int;
    lemma_fixed_lines();
    assert forall|k: int| 0 <= k < ls.len() implies inline(#[trigger] ls[k]) by {
        if 4 <= k < 4 + n {
            assert(named_plainly(v[k - 4]));
            lemma_entry_line_is_inline(v[k - 4]);
            assert(ls[k] == entry_line(v[k - 4]));
        } else if 6 + n <= k < 6 + 2 * n {
            assert(named_plainly(v[k - 6 - n]));
            lemma_entry_line_is_inline(v[k - 6 - n]);
            assert(ls[k] == table_line(v[k - 6 - n]));
        } else if k < 4 {
            assert(ls[k] == head_lines()[k]);
        } else if k < 6 + n {
            assert(ls[k] == table_head()[k - 4 - n]);
        } else {
            assert(ls[k] == "];"@);
        }
    }
}

/// The lines that hold no icon have neither breaks nor quotes.
proof fn lemma_fixed_lines()
    ensures
        forall|k: int|
            0 <= k < 4 ==> inline(#[trigger] head_lines()[k]) && !head_lines()[k].contains('"'),
        forall|k: int|
            0 <= k < 2 ==> inline(#[trigger] table_head()[k]) && !table_head()[k].contains('"'),
        inline("];"@),
        !"];"@.contains('"'),
{
    reveal_strlit("// @generated by manifest-gen");
    reveal_strlit("use crate::universal::IconEntry;");
    reveal_strlit("use crate::SafeIcon;");
    reveal_strlit("");
    reveal_strlit("pub const ICON_ENTRIES: &[IconEntry] = &[");
    reveal_strlit("];");
}

/// Splitting joined lines gives them back.
proof fn lemma_lines_of_joined(ls: Seq<Seq<char>>)
    requires
        forall|k: int| 0 <= k < ls.len() ==> inline(#[trigger] ls[k]),
    ensures
        lines(joined(ls)) == ls,
    decreases ls.len(),
{
    if ls.len() == 0 {
        assert(lines(joined(ls)) =~= ls);
    } else {
        let rest = ls.skip(1);
        let s = joined(ls);
        let n = ls[0].len() as int;
        assert forall|k: int| 0 <= k < rest.len() implies inline(#[trigger] rest[k]) by {
            assert(rest[k] == ls[k + 1]);
        }
        lemma_lines_of_joined(rest);
        assert(s[n] == '\n');
        assert forall|i: int| 0 <= i < n implies s[i] != '\n' by {
            assert(s[i] == ls[0][i]);
        }
        lemma_first_index(s, '\n', n, 0);
        assert(s.take(n) =~= ls[0]);
        assert(s.skip(n + 1) =~= joined(rest));
        if n > 0 {
            assert(ls[0].last() == ls[0][n - 1]);
        }
        assert(lines(s) =~= ls);
    }
}

proof fn lemma_first_index(s: Seq<char>, c: char, k: int, from: int)
    requires
        0 <= from <= k < s.len(),
        s[k] == c,
        forall|i: int| from <= i < k ==> s[i] != c,
    ensures
        index_from(s, c, from) == k,
    decreases k - from,
{
    if from < k {
        lemma_first_index(s, c, k, from + 1);
    }
}

/// A line without a quote has no id.
proof fn lemma_no_id(line: Seq<char>)
    requires
        !line.contains('"'),
    ensures
        line_id(line) is None,
{
    lemma_no_mark(line, 0);
}

proof fn lemma_no_mark(line: Seq<char>, from: int)
    requires
        !line.contains('"'),
        0 <= from,
    ensures
        position(line, id_mark(), from) == -1,
    decreases line.len() + 1 - from,
{
    reveal_strlit("id: \"");
    let m = id_mark();
    if from + m.len() <= line.len() {
        if occurs_at(line, m, from) {
            assert(line.subrange(from, from + m.len())[4] == m[4]);
            assert(line[from + 4] == '"');
        }
        lemma_no_mark(line, from + 1);
    }
}

/// The line of an icon has the icon's id.
proof fn lemma_entry_id(e: Entry)
    requires
        named_plainly(e),
    ensures
        line_id(entry_line(e)) == Some(e.id@),
{
    reveal_strlit("id: \"");
    reveal_strlit("id: ");
    reveal_strlit("pub const ");
    reveal_strlit(": IconEntry = IconEntry { ");
    lemma_plain_is_escaped(e.id@);
    let (line, head, id) = (entry_line(e), line_head(e), e.id@);
    let p = head.len() as int;
    let n = id.len() as int;
    assert(line == head + "id: "@ + (seq!['"'] + id + seq!['"']) + line_tail(e));
    assert forall|i: int| 0 <= i < p + 4 implies line[i] != '"' by {
        if i < p {
            assert(line[i] == head[i]);
            lemma_head_has_no_quote(e, i);
        } else {
            assert(line[i] == "id: "@[i - p]);
        }
    }
    assert(line[p + 4] == '"');
    assert(line.subrange(p, p + 5) =~= id_mark());
    lemma_mark_at(line, p, 0);
    assert forall|i: int| p + 5 <= i < p + 5 + n implies line[i] != '"' by {
        assert(line[i] == id[i - p - 5]);
    }
    assert(line[p + 5 + n] == '"');
    lemma_first_index(line, '"', p + 5 + n, p + 5);
    assert(line.subrange(p + 5, p + 5 + n) =~= id);
}

proof fn lemma_head_has_no_quote(e: Entry, i: int)
    requires
        named_plainly(e),
        0 <= i < line_head(e).len(),
    ensures
        line_head(e)[i] != '"',
{
    reveal_strlit("pub const ");
    reveal_strlit(": IconEntry = IconEntry { ");
    let (a, k, b) = ("pub const "@, e.const_name@, ": IconEntry = IconEntry { "@);
    if i < a.len() {
        assert(line_head(e)[i] == a[i]);
    } else if i < a.len() + k.len() {
        assert(line_head(e)[i] == k[i - a.len()]);
    } else {
        assert(line_head(e)[i] == b[i - a.len() - k.len()]);
    }
}

proof fn lemma_mark_at(line: Seq<char>, p: int, from: int)
    requires
        0 <= from <= p,
        p + 5 <= line.len(),
        line.subrange(p, p + 5) == id_mark(),
        forall|i: int| 0 <= i < p + 4 ==> line[i] != '"',
    ensures
        position(line, id_mark(), from) == p,
    decreases p - from,
{
    reveal_strlit("id: \"");
    let m = id_mark();
    if from < p {
        if occurs_at(line, m, from) {
            assert(line.subrange(from, from + 5)[4] == m[4]);
            assert(line[from + 4] == '"');
        }
        lemma_mark_at(line, p, from + 1);
    }
}

proof fn lemma_scraped_source(v: Seq<Entry>)
    requires
        forall|i: int| 0 <= i < v.len() ==> named_plainly(#[trigger] v[i]),
        forall|i: int, j: int|
            0 <= i < j < v.len() ==> (#[trigger] v[i]).id@ != (#[trigger] v[j]).id@,
    ensures
        scraped(source_lines(v)) == v.map_values(|e: Entry| e.id@),
{
    let ls = source_lines(v);
    let n = v.len() as int;
    let ids = v.map_values(|e: Entry| e.id@);
    lemma_scraped_prefix(v, ls.len() as int);
    assert(ls.take(ls.len() as int) =~= ls);
    assert(ids.take(n) =~= ids);
}

/// How many of the first `k` lines are lines of icons.
spec fn icon_lines(n: int, k: int) -> int {
    if k <= 4 {
        0
    } else if k <= 4 + n {
        k - 4
    } else {
        n
    }
}

proof fn lemma_scraped_prefix(v: Seq<Entry>, k: int)
    requires
        forall|i: int| 0 <= i < v.len() ==> named_plainly(#[trigger] v[i]),
        forall|i: int, j: int|
            0 <= i < j < v.len() ==> (#[trigger] v[i]).id@ != (#[trigger] v[j]).id@,
        0 <= k <= source_lines(v).len(),
    ensures
        scraped(source_lines(v).take(k)) == v.map_values(|e: Entry| e.id@).take(
            icon_lines(v.len() as int, k),
        ),
    decreases k,
{
    let ls = source_lines(v);
    let n = v.len() as int;
    let ids = v.map_values(|e: Entry| e.id@);
    if k == 0 {
        assert(ls.take(0) =~= seq![]);
        assert(ids.take(0) =~= seq![]);
    } else {
        lemma_scraped_prefix(v, k - 1);
        assert(ls.take(k).drop_last() =~= ls.take(k - 1));
        assert(ls.take(k).last() == ls[k - 1]);
        let j = k - 1;
        if 4 <= j < 4 + n {
            let e = v[j - 4];
            assert(ls[j] == entry_line(e));
            assert(named_plainly(v[j - 4]));
            lemma_entry_id(e);
            let init = ids.take(j - 4);
            if init.contains(e.id@) {
                let i = choose|i: int| 0 <= i < init.len() && init[i] == e.id@;
                assert(v[i].id@ == v[j - 4].id@);
            }
            assert(init.push(e.id@) =~= ids.take(j - 3));
        } else {
            lemma_fixed_lines();
            if 6 + n <= j < 6 + 2 * n {
                let e = v[j - 6 - n];
                assert(ls[j] == table_line(e));
                assert(named_plainly(v[j - 6 - n]));
                lemma_table_line_has_no_quote(e);
            } else if j < 4 {
                assert(ls[j] == head_lines()[j]);
            } else if j < 6 + n {
                assert(ls[j] == table_head()[j - 4 - n]);
            } else {
                assert(ls[j] == "];"@);
            }
            lemma_no_id(ls[j]);
        }
    }
}

proof fn lemma_table_line_has_no_quote(e: Entry)
    requires
        named_plainly(e),
    ensures
        !table_line(e).contains('"'),
{
    reveal_strlit("    ");
    reveal_strlit(",");
    let s = table_line(e);
    if s.contains('"') {
        let i = choose|i: int| 0 <= i < s.len() && s[i] == '"';
        let k = e.const_name@;
        if 4 <= i < 4 + k.len() {
            assert(s[i] == k[i - 4]);
        }
    }
}

// ---------------------------------------------------------------------------
// How the source reads
// ---------------------------------------------------------------------------
/// Literals are written character by character: a quote or a backslash behind a
/// backslash, other visible ASCII and the space as they are, and everything else by
/// its number in hexadecimal.
pub proof fn literals_are_escaped_by_character(a: Seq<char>, b: Seq<char>, c: char)
    ensures
        literal(a) == seq!['"'] + escaped(a) + seq!['"'],
        escaped(a + b) == escaped(a) + escaped(b),
        escaped(seq![]) == Seq::<char>::empty(),
        c as u32 == 0x22 || c as u32 == 0x5C ==> escaped(seq![c]) == seq!['\\', c],
        0x20 <= c as u32 <= 0x7E && c as u32 != 0x22 && c as u32 != 0x5C ==> escaped(seq![c])
            == seq![c],
        !(0x20 <= c as u32 <= 0x7E) ==> escaped(seq![c]) == "\\u{"@ + numeral(c as nat, 16, 1)
            + "}"@,
    decreases b.len(),
{
    let one = seq![c];
    assert(one.drop_last() =~= seq![]);
    assert(escaped(one.drop_last()) =~= seq![]);
    assert(escaped(one) =~= escaped_char(c));
    if b.len() > 0 {
        literals_are_escaped_by_character(a, b.drop_last(), c);
        assert((a + b).drop_last() =~= a + b.drop_last());
        assert((a + b).last() == b.last());
        assert(escaped(a + b) =~= escaped(a) + escaped(b));
    } else {
        assert(a + b =~= a);
        assert(escaped(a + b) =~= escaped(a) + escaped(b));
    }
}

/// The line of an icon declares its constant with every field under its own name.
pub open spec fn declares(line: Seq<char>, e: Entry) -> bool {
    line == ("pub const "@ + e.const_name@ + ": IconEntry = IconEntry { "@) + "id: "@ + literal(
        e.id@,
    ) + (", codepoint: 0x"@ + numeral(e.codepoint as nat, 16, 4) + ", icon: SafeIcon { glyph: "@
        + literal(seq![e.glyph]) + ", fallback: "@ + literal(e.fallback@) + " }, block: "@ + literal(
        e.module@,
    ) + ", unicode_name: "@ + literal(e.unicode_name@) + " };"@)
}

/// The source of a manifest, line by line: the mark of generated code and the
/// imports, one declaration per icon in order, and the table that lists them in the
/// same order.
pub proof fn sources_declare_and_list_every_icon(
    v: Seq<Entry>,
    keep: spec_fn(Seq<char>) -> bool,
    names: Map<u32, String>,
    i: int,
)
    requires
        is_manifest(v, keep, names),
        0 <= i < v.len() || v.len() == 0,
    ensures
        ({
            let ls = lines(source_text(v));
            let n = v.len() as int;
            &&& ls.len() == 2 * n + 7
            &&& ls[0] == "// @generated by manifest-gen"@
            &&& ls[1] == "use crate::universal::IconEntry;"@
            &&& ls[2] == "use crate::SafeIcon;"@
            &&& ls[3] == ""@
            &&& 0 <= i < n ==> declares(ls[4 + i], v[i])
            &&& ls[4 + n] == ""@
            &&& ls[5 + n] == "pub const ICON_ENTRIES: &[IconEntry] = &["@
            &&& 0 <= i < n ==> ls[6 + n + i] == "    "@ + v[i].const_name@ + ","@
            &&& ls[6 + 2 * n] == "];"@
        }),
{
    entries_come_from_candidates(v, keep, names);
    assert forall|k: int| 0 <= k < v.len() implies named_plainly(#[trigger] v[k]) by {
        assert(of_candidate(v[k], names));
        lemma_named_plainly(v[k], names);
    }
    lemma_source_is_inline(v);
    lemma_lines_of_joined(source_lines(v));
}

} // verus!
