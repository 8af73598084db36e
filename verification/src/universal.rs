//! Verified single-cell icons: lookup and search.
//!
//! An icon belongs to the verified set only if it passed both the PTY
//! cursor-position assertion (Pass 1) and the pixel-level screenshot assertion
//! (Pass 2) on **all** supported platform default terminals. The set itself is
//! generated data, which callers hand in.
use crate::catalog::{block_of, id_text, is_entry, Block, Candidate};
use crate::manifest::{
    entries_come_from_candidates, has_entry, is_entry_for, is_manifest, kept_candidates_are_listed,
    module_text, of_candidate, tables_are_ordered_and_have_fallbacks, Entry,
};
use crate::text::{
    all_digits, ascii_lower, ascii_upper, begins_with, chars_of, contains, contains_chars, decimal,
    digit_value, hex4, is_space, lower, matches_at, numeral_reads_back, parse_u32, read_u32,
    same_text, slice_chars, to_lower, to_upper, trim, trim_chars, trim_end, trim_start, upper,
};
use crate::SafeIcon;
use vstd::prelude::*;

verus! {

/// One icon of the verified set.
#[derive(Clone, Copy, Debug, PartialEq, Eq)]
pub struct IconEntry {
    /// The icon.
    pub icon: SafeIcon,
    /// Catalog id.
    pub id: &'static str,
    /// Codepoint of the glyph.
    pub codepoint: u32,
    /// Block name.
    pub block: &'static str,
    /// Official Unicode character name.
    pub unicode_name: &'static str,
}

/// The icons of the entries, in order.
pub fn iter(entries: &[IconEntry]) -> (out: Vec<SafeIcon>)
    ensures
        out@ == entries@.map_values(|e: IconEntry| e.icon),
{
    let mut out: Vec<SafeIcon> = Vec::new();
    for i in 0..entries.len()
        invariant
            out@ == entries@.take(i as int).map_values(|e: IconEntry| e.icon),
    {
        out.push(entries[i].icon);
        assert(out@ =~= entries@.take(i + 1).map_values(|e: IconEntry| e.icon));
    }
    assert(entries@.take(entries@.len() as int) =~= entries@);
    out
}

/// Position of the first entry with the id, or the length.
pub open spec fn first_id(entries: Seq<IconEntry>, id: Seq<char>, from: int) -> int
    decreases entries.len() - from,
{
    if from >= entries.len() {
        entries.len() as int
    } else if entries[from].id@ == id {
        from
    } else {
        first_id(entries, id, from + 1)
    }
}

/// Position of the first entry with the codepoint, or the length.
pub open spec fn first_codepoint(entries: Seq<IconEntry>, cp: u32, from: int) -> int
    decreases entries.len() - from,
{
    if from >= entries.len() {
        entries.len() as int
    } else if entries[from].codepoint == cp {
        from
    } else {
        first_codepoint(entries, cp, from + 1)
    }
}

/// The entry at a position, if there is one.
pub open spec fn entry_at(entries: Seq<IconEntry>, i: int) -> Option<IconEntry> {
    if i < entries.len() {
        Some(entries[i])
    } else {
        None
    }
}

/// A borrowed entry as a value.
pub open spec fn found(e: Option<&IconEntry>) -> Option<IconEntry> {
    match e {
        Some(v) => Some(*v),
        None => None,
    }
}

/// The entry with a catalog id.
pub fn by_id<'a>(entries: &'a [IconEntry], id: &str) -> (e: Option<&'a IconEntry>)
    ensures
        found(e) == entry_at(entries@, first_id(entries@, id@, 0)),
{
    for i in 0..entries.len()
        invariant
            first_id(entries@, id@, 0) == first_id(entries@, id@, i as int),
    {
        if same_text(entries[i].id, id) {
            return Some(&entries[i]);
        }
    }
    None
}

/// The entry of a character, by its number.
pub fn by_number<'a>(entries: &'a [IconEntry], cp: u32) -> (e: Option<&'a IconEntry>)
    ensures
        found(e) == entry_at(entries@, first_codepoint(entries@, cp, 0)),
{
    for i in 0..entries.len()
        invariant
            first_codepoint(entries@, cp, 0) == first_codepoint(entries@, cp, i as int),
    {
        if entries[i].codepoint == cp {
            return Some(&entries[i]);
        }
    }
    None
}

/// The icon of an entry, if there is one.
pub open spec fn icon_of(e: Option<IconEntry>) -> Option<SafeIcon> {
    match e {
        Some(v) => Some(v.icon),
        None => None,
    }
}

/// Look an icon up by catalog id.
pub fn lookup(entries: &[IconEntry], id: &str) -> (icon: Option<SafeIcon>)
    ensures
        icon == icon_of(entry_at(entries@, first_id(entries@, id@, 0))),
{
    match by_id(entries, id) {
        Some(e) => Some(e.icon),
        None => None,
    }
}

/// Look an icon up by its character.
pub fn by_codepoint(entries: &[IconEntry], c: char) -> (icon: Option<SafeIcon>)
    ensures
        icon == icon_of(entry_at(entries@, first_codepoint(entries@, c as u32, 0))),
{
    match by_number(entries, c as u32) {
        Some(e) => Some(e.icon),
        None => None,
    }
}

// ---------------------------------------------------------------------------
// Search
// ---------------------------------------------------------------------------
/// The Unicode uppercase form of a text.
pub uninterp spec fn unicode_upper(s: Seq<char>) -> Seq<char>;

/// The Unicode lowercase form of a text.
pub uninterp spec fn unicode_lower(s: Seq<char>) -> Seq<char>;

/// Every character is ASCII.
pub open spec fn ascii_only(s: Seq<char>) -> bool {
    forall|i: int| 0 <= i < s.len() ==> #[trigger] s[i] as u32 <= 127
}

/// `str::to_uppercase` depends on the text alone; ASCII letters are mapped as by
/// ASCII uppercasing.
pub assume_specification[ str::to_uppercase ](s: &str) -> (r: String)
    ensures
        r@ == unicode_upper(s@),
        ascii_only(s@) ==> r@ == upper(s@),
;

/// `str::to_lowercase` depends on the text alone; ASCII letters are mapped as by
/// ASCII lowercasing.
pub assume_specification[ str::to_lowercase ](s: &str) -> (r: String)
    ensures
        r@ == unicode_lower(s@),
        ascii_only(s@) ==> r@ == lower(s@),
;

/// The text begins like a hexadecimal codepoint.
pub open spec fn hex_prefixed(t: Seq<char>) -> bool {
    begins_with(t, "0x"@) || begins_with(t, "U+"@) || begins_with(t, "u+"@)
}

/// The codepoint is one that the text denotes: in hexadecimal after a `0x` or
/// `U+` prefix, else in decimal or in bare hexadecimal.
pub open spec fn denotes(t: Seq<char>, cp: u32) -> bool {
    if hex_prefixed(t) {
        parse_u32(t.skip(2), 16) == Some(cp)
    } else {
        parse_u32(t, 10) == Some(cp) || parse_u32(t, 16) == Some(cp)
    }
}

/// A part of the entry's name, id or block is the query, whatever the case.
pub open spec fn matches_text(e: IconEntry, query_upper: Seq<char>, query_lower: Seq<char>) -> bool {
    ||| contains(upper(e.unicode_name@), query_upper)
    ||| contains(lower(e.id@), query_lower)
    ||| contains(lower(e.block@), query_lower)
}

/// The entry matches: by codepoint, by a part of its name, id or block whatever
/// the case, or by its glyph.
pub open spec fn matches_query(
    e: IconEntry,
    query: Seq<char>,
    query_upper: Seq<char>,
    query_lower: Seq<char>,
) -> bool {
    ||| denotes(trim(query), e.codepoint)
    ||| matches_text(e, query_upper, query_lower)
    ||| contains(e.icon.glyph@, query)
}

/// The matching entries, in order.
pub open spec fn matching(
    entries: Seq<IconEntry>,
    query: Seq<char>,
    query_upper: Seq<char>,
    query_lower: Seq<char>,
) -> Seq<IconEntry>
    decreases entries.len(),
{
    if entries.len() == 0 {
        seq![]
    } else {
        let init = matching(entries.drop_last(), query, query_upper, query_lower);
        if matches_query(entries.last(), query, query_upper, query_lower) {
            init.push(entries.last())
        } else {
            init
        }
    }
}

/// Borrowed entries as values.
pub open spec fn entry_values(v: Seq<&IconEntry>) -> Seq<IconEntry> {
    v.map_values(|e: &IconEntry| *e)
}

/// The codepoints that a text denotes: by prefix or decimal, and in bare
/// hexadecimal.
fn numbers_of(t: &[char]) -> (n: (Option<u32>, Option<u32>))
    ensures
        forall|cp: u32| #[trigger] denotes(t@, cp) <==> n.0 == Some(cp) || n.1 == Some(cp),
{
    let zx = chars_of("0x");
    let up = chars_of("U+");
    let lp = chars_of("u+");
    proof {
        reveal_strlit("0x");
        reveal_strlit("U+");
        reveal_strlit("u+");
    }
    if matches_at(t, zx.as_slice(), 0) || matches_at(t, up.as_slice(), 0) || matches_at(
        t,
        lp.as_slice(),
        0,
    ) {
        let rest = slice_chars(t, 2, t.len());
        assert(rest@ =~= t@.skip(2));
        (read_u32(rest.as_slice(), 16), None)
    } else {
        (read_u32(t, 10), read_u32(t, 16))
    }
}

fn holds(text: &str, part: &[char], to_up: bool) -> (b: bool)
    ensures
        b == contains(
            if to_up {
                upper(text@)
            } else {
                lower(text@)
            },
            part@,
        ),
{
    let c = chars_of(text);
    let folded = if to_up {
        to_upper(c.as_slice())
    } else {
        to_lower(c.as_slice())
    };
    contains_chars(folded.as_slice(), part)
}

/// Search with the query's case forms at hand.
pub fn search_folded<'a>(
    entries: &'a [IconEntry],
    query: &str,
    query_upper: &str,
    query_lower: &str,
) -> (out: Vec<&'a IconEntry>)
    ensures
        entry_values(out@) == matching(entries@, query@, query_upper@, query_lower@),
        forall|e: IconEntry| #[trigger]
            entry_values(out@).contains(e) <==> entries@.contains(e) && holds_query(
                e,
                query@,
                query_upper@,
                query_lower@,
            ),
{
    let q = chars_of(query);
    let up = chars_of(query_upper);
    let low = chars_of(query_lower);
    let t = trim_chars(q.as_slice());
    let (a, b) = numbers_of(t.as_slice());
    let mut out: Vec<&'a IconEntry> = Vec::new();
    assert(entry_values(out@) =~= seq![]);
    for i in 0..entries.len()
        invariant
            q@ == query@,
            up@ == query_upper@,
            low@ == query_lower@,
            t@ == trim(query@),
            forall|cp: u32| #[trigger] denotes(t@, cp) <==> a == Some(cp) || b == Some(cp),
            entry_values(out@) == matching(
                entries@.take(i as int),
                query@,
                query_upper@,
                query_lower@,
            ),
    {
        let e = &entries[i];
        proof {
            assert(entries@.take(i + 1).drop_last() =~= entries@.take(i as int));
            assert(entries@.take(i + 1).last() == *e);
        }
        let asked = match a {
            Some(n) => n == e.codepoint,
            None => false,
        } || match b {
            Some(n) => n == e.codepoint,
            None => false,
        };
        assert(asked == denotes(t@, e.codepoint));
        let glyph = chars_of(e.icon.glyph);
        if asked || holds(e.unicode_name, up.as_slice(), true) || holds(
            e.id,
            low.as_slice(),
            false,
        ) || holds(e.block, low.as_slice(), false) || contains_chars(
            glyph.as_slice(),
            q.as_slice(),
        ) {
            let ghost before = out@;
            out.push(e);
            assert(entry_values(out@) =~= entry_values(before).push(*e));
        }
    }
    assert(entries@.take(entries@.len() as int) =~= entries@);
    proof {
        assert forall|e: IconEntry| #[trigger] entry_values(out@).contains(e) <==> entries@.contains(
            e,
        ) && holds_query(e, query@, query_upper@, query_lower@) by {
            found_means_number_name_id_block_or_glyph(
                entries@,
                query@,
                query_upper@,
                query_lower@,
                e,
            );
        }
    }
    out
}

/// Case-insensitive substring search over the verified set.
///
/// Matches against the official Unicode character name, the catalog id, the
/// block name, and the codepoint given as hex (with or without a `0x`/`U+`
/// prefix) or decimal, e.g. `"star"`, `"box_25"`, `"2605"`, `"0x25a0"`, or the
/// glyph character itself.
pub fn search<'a>(entries: &'a [IconEntry], query: &str) -> (out: Vec<&'a IconEntry>)
    ensures
        entry_values(out@) == matching(
            entries@,
            query@,
            unicode_upper(query@),
            unicode_lower(query@),
        ),
        forall|e: IconEntry| #[trigger]
            entry_values(out@).contains(e) <==> entries@.contains(e) && holds_query(
                e,
                query@,
                unicode_upper(query@),
                unicode_lower(query@),
            ),
        ascii_only(query@) ==> entry_values(out@) == matching(
            entries@,
            query@,
            upper(query@),
            lower(query@),
        ),
{
    let query_upper = query.to_uppercase();
    let query_lower = query.to_lowercase();
    search_folded(entries, query, query_upper.as_str(), query_lower.as_str())
}

// ---------------------------------------------------------------------------
// Laws
// ---------------------------------------------------------------------------
/// The empty query matches everything.
pub proof fn empty_query_matches_everything(entries: Seq<IconEntry>)
    ensures
        matching(entries, seq![], seq![], seq![]) == entries,
    decreases entries.len(),
{
    if entries.len() > 0 {
        empty_query_matches_everything(entries.drop_last());
        let g = entries.last().icon.glyph@;
        assert(g.subrange(0, 0) =~= seq![]);
        assert(crate::text::occurs_at(g, seq![], 0));
        assert(matching(entries, seq![], seq![], seq![]) =~= entries);
    }
}

proof fn lemma_first_id(entries: Seq<IconEntry>, id: Seq<char>, from: int)
    requires
        0 <= from <= entries.len(),
    ensures
        from <= first_id(entries, id, from) <= entries.len(),
        first_id(entries, id, from) < entries.len() ==> entries[first_id(entries, id, from)].id@
            == id,
        forall|i: int|
            from <= i < first_id(entries, id, from) ==> (#[trigger] entries[i]).id@ != id,
    decreases entries.len() - from,
{
    if from < entries.len() && entries[from].id@ != id {
        lemma_first_id(entries, id, from + 1);
    }
}

proof fn lemma_first_codepoint(entries: Seq<IconEntry>, cp: u32, from: int)
    requires
        0 <= from <= entries.len(),
    ensures
        from <= first_codepoint(entries, cp, from) <= entries.len(),
        first_codepoint(entries, cp, from) < entries.len() ==> entries[first_codepoint(
            entries,
            cp,
            from,
        )].codepoint == cp,
        forall|i: int|
            from <= i < first_codepoint(entries, cp, from) ==> (#[trigger] entries[i]).codepoint
                != cp,
    decreases entries.len() - from,
{
    if from < entries.len() && entries[from].codepoint != cp {
        lemma_first_codepoint(entries, cp, from + 1);
    }
}

/// In a set without duplicates every entry is found by its id and by its
/// codepoint, and nothing is found under an id or a codepoint that no entry has.
pub proof fn lookups_find_exactly_the_entries(
    entries: Seq<IconEntry>,
    k: int,
    id: Seq<char>,
    cp: u32,
)
    requires
        forall|i: int, j: int|
            0 <= i < j < entries.len() ==> (#[trigger] entries[i]).id@ != (
            #[trigger] entries[j]).id@ && entries[i].codepoint != entries[j].codepoint,
    ensures
        0 <= k < entries.len() && entries[k].id@ == id ==> entry_at(
            entries,
            first_id(entries, id, 0),
        ) == Some(entries[k]),
        0 <= k < entries.len() && entries[k].codepoint == cp ==> entry_at(
            entries,
            first_codepoint(entries, cp, 0),
        ) == Some(entries[k]),
        (forall|i: int| 0 <= i < entries.len() ==> (#[trigger] entries[i]).id@ != id) ==> entry_at(
            entries,
            first_id(entries, id, 0),
        ) is None,
        (forall|i: int| 0 <= i < entries.len() ==> (#[trigger] entries[i]).codepoint != cp)
            ==> entry_at(entries, first_codepoint(entries, cp, 0)) is None,
{
    lemma_first_id(entries, id, 0);
    lemma_first_codepoint(entries, cp, 0);
    let a = first_id(entries, id, 0);
    let b = first_codepoint(entries, cp, 0);
    if 0 <= k < entries.len() && entries[k].id@ == id && a < k {
        assert(entries[a].id@ != entries[k].id@);
    }
    if 0 <= k < entries.len() && entries[k].codepoint == cp && b < k {
        assert(entries[b].codepoint != entries[k].codepoint);
    }
}

/// Searching never invents or drops: an entry is found if and only if it is one
/// of the set that matches.
pub proof fn search_finds_exactly_the_matches(
    entries: Seq<IconEntry>,
    query: Seq<char>,
    up: Seq<char>,
    low: Seq<char>,
    e: IconEntry,
)
    ensures
        matching(entries, query, up, low).contains(e) <==> entries.contains(e) && matches_query(
            e,
            query,
            up,
            low,
        ),
        matching(entries, query, up, low).len() <= entries.len(),
    decreases entries.len(),
{
    if entries.len() > 0 {
        let init = entries.drop_last();
        search_finds_exactly_the_matches(init, query, up, low, e);
        let a = matching(init, query, up, low);
        let b = matching(entries, query, up, low);
        if a.contains(e) {
            let i = choose|i: int| 0 <= i < a.len() && a[i] == e;
            assert(b[i] == e);
        }
        if init.contains(e) {
            let i = choose|i: int| 0 <= i < init.len() && init[i] == e;
            assert(entries[i] == e);
        }
        if entries.contains(e) && !init.contains(e) {
            let i = choose|i: int| 0 <= i < entries.len() && entries[i] == e;
            if i < init.len() {
                assert(init[i] == e);
            }
            assert(entries.last() == e);
            if matches_query(e, query, up, low) {
                assert(b[b.len() - 1] == e);
            }
        }
        if b.contains(e) && !a.contains(e) {
            let i = choose|i: int| 0 <= i < b.len() && b[i] == e;
            if i < a.len() {
                assert(a[i] == e);
            }
            assert(entries[entries.len() - 1] == e);
        }
    }
}

/// `part` stands in `whole` at the ascending positions `at`.
pub open spec fn stands_at(part: Seq<IconEntry>, whole: Seq<IconEntry>, at: Seq<int>) -> bool {
    &&& at.len() == part.len()
    &&& forall|i: int|
        0 <= i < at.len() ==> 0 <= #[trigger] at[i] < whole.len() && whole[at[i]] == part[i]
    &&& forall|i: int, j: int| 0 <= i < j < at.len() ==> #[trigger] at[i] < #[trigger] at[j]
}

/// Searching never reorders or repeats: what is found is a subsequence of the
/// set, at exactly the positions that match.
pub proof fn search_results_keep_the_order(
    entries: Seq<IconEntry>,
    query: Seq<char>,
    up: Seq<char>,
    low: Seq<char>,
) -> (at: Seq<int>)
    ensures
        stands_at(matching(entries, query, up, low), entries, at),
        forall|k: int|
            0 <= k < entries.len() ==> (at.contains(k) <==> matches_query(
                #[trigger] entries[k],
                query,
                up,
                low,
            )),
    decreases entries.len(),
{
    if entries.len() == 0 {
        seq![]
    } else {
        let init = entries.drop_last();
        let n = init.len() as int;
        let before = search_results_keep_the_order(init, query, up, low);
        let at = if matches_query(entries.last(), query, up, low) {
            before.push(n)
        } else {
            before
        };
        assert forall|i: int| 0 <= i < at.len() implies 0 <= #[trigger] at[i] < entries.len()
            && entries[at[i]] == matching(entries, query, up, low)[i] by {
            if i < before.len() {
                assert(at[i] == before[i]);
            }
        }
        assert forall|k: int| 0 <= k < entries.len() implies (at.contains(k) <==> matches_query(
            #[trigger] entries[k],
            query,
            up,
            low,
        )) by {
            if k < n {
                assert(init[k] == entries[k]);
                if before.contains(k) {
                    let i = choose|i: int| 0 <= i < before.len() && before[i] == k;
                    assert(at[i] == k);
                }
                if at.contains(k) {
                    let i = choose|i: int| 0 <= i < at.len() && at[i] == k;
                    assert(i < before.len());
                    assert(before[i] == k);
                }
            } else {
                if matches_query(entries.last(), query, up, low) {
                    assert(at[before.len() as int] == n);
                } else if at.contains(k) {
                    let i = choose|i: int| 0 <= i < at.len() && at[i] == k;
                    assert(before[i] < n);
                }
            }
        }
        at
    }
}

/// Case makes no difference to how a query matches names, ids and blocks.
pub proof fn text_matches_ignore_case(e: IconEntry, q: Seq<char>, r: Seq<char>)
    requires
        upper(q) == upper(r),
    ensures
        lower(q) == lower(r),
        matches_text(e, upper(q), lower(q)) == matches_text(e, upper(r), lower(r)),
{
    assert(upper(q).len() == q.len() && upper(r).len() == r.len());
    assert(lower(q).len() == q.len() && lower(r).len() == r.len());
    assert forall|i: int| 0 <= i < q.len() implies lower(q)[i] == lower(r)[i] by {
        assert(upper(q)[i] == ascii_upper(q[i]));
        assert(upper(r)[i] == ascii_upper(r[i]));
        assert(lower(q)[i] == ascii_lower(q[i]));
        assert(lower(r)[i] == ascii_lower(r[i]));
    }
    assert(lower(q) =~= lower(r));
}

// ---------------------------------------------------------------------------
// Laws of the shipped table
// ---------------------------------------------------------------------------
/// The icon is the one of a manifest entry.
pub open spec fn stands_for(e: IconEntry, m: Entry) -> bool {
    &&& e.icon.glyph@ == seq![m.glyph]
    &&& e.icon.fallback@ == m.fallback@
    &&& e.id@ == m.id@
    &&& e.codepoint == m.codepoint
    &&& e.block@ == m.module@
    &&& e.unicode_name@ == m.unicode_name@
}

/// The table lists the icons of the manifest, in order.
pub open spec fn is_table_of(table: Seq<IconEntry>, v: Seq<Entry>) -> bool {
    &&& table.len() == v.len()
    &&& forall|i: int| 0 <= i < table.len() ==> stands_for(#[trigger] table[i], v[i])
}

/// What [`iter`] yields of the shipped table: every icon once, in order, the
/// glyphs single characters that ascend strictly; an icon has a fallback exactly
/// outside printable ASCII; every kept candidate is among them, so that a table
/// with a kept candidate is not empty.
pub proof fn shipped_icons_ascend_and_have_fallbacks(
    table: Seq<IconEntry>,
    v: Seq<Entry>,
    keep: spec_fn(Seq<char>) -> bool,
    names: Map<u32, String>,
    icons: Seq<SafeIcon>,
)
    requires
        is_manifest(v, keep, names),
        is_table_of(table, v),
        icons == table.map_values(|e: IconEntry| e.icon),
    ensures
        icons.len() == v.len(),
        forall|i: int|
            0 <= i < icons.len() ==> (#[trigger] icons[i]).glyph@.len() == 1
                && icons[i].glyph@[0] as u32 == v[i].codepoint,
        forall|i: int, j: int|
            0 <= i < j < icons.len() ==> ((#[trigger] icons[i]).glyph@[0] as u32) < (
            #[trigger] icons[j]).glyph@[0] as u32,
        forall|i: int|
            0 <= i < icons.len() ==> ((#[trigger] icons[i]).fallback@.len() > 0 <==> !(0x21
                <= icons[i].glyph@[0] as u32 <= 0x7E)),
        forall|cp: int|
            (#[trigger] block_of(cp)) is Some && keep(id_text(block_of(cp).unwrap(), cp))
                ==> icons.len() > 0 && has_entry(v, cp),
{
    tables_are_ordered_and_have_fallbacks(v, keep, names);
    assert forall|i: int| 0 <= i < icons.len() implies (#[trigger] icons[i]).glyph@.len() == 1
        && icons[i].glyph@[0] as u32 == v[i].codepoint && icons[i].fallback@ == v[i].fallback@ by {
        assert(stands_for(table[i], v[i]));
        assert(v[i].glyph as u32 == v[i].codepoint);
    }
    assert forall|i: int, j: int| 0 <= i < j < icons.len() implies ((
    #[trigger] icons[i]).glyph@[0] as u32) < (#[trigger] icons[j]).glyph@[0] as u32 by {
        assert(v[i].codepoint < v[j].codepoint);
    }
    assert forall|i: int| 0 <= i < icons.len() implies ((#[trigger] icons[i]).fallback@.len() > 0
        <==> !(0x21 <= icons[i].glyph@[0] as u32 <= 0x7E)) by {
        assert(v[i].fallback@.len() > 0 <==> !(0x21 <= v[i].codepoint <= 0x7E));
    }
    assert forall|cp: int|
        (#[trigger] block_of(cp)) is Some && keep(id_text(block_of(cp).unwrap(), cp)) implies
        icons.len() > 0 && has_entry(v, cp) by {
        kept_candidates_are_listed(v, keep, names, cp);
    }
}

/// What a search of the shipped table finds ascends strictly by codepoint:
/// nothing is reordered, and nothing occurs twice.
pub proof fn shipped_searches_ascend(
    table: Seq<IconEntry>,
    v: Seq<Entry>,
    keep: spec_fn(Seq<char>) -> bool,
    names: Map<u32, String>,
    query: Seq<char>,
    up: Seq<char>,
    low: Seq<char>,
    i: int,
    j: int,
)
    requires
        is_manifest(v, keep, names),
        is_table_of(table, v),
        0 <= i < j < matching(table, query, up, low).len(),
    ensures
        matching(table, query, up, low)[i].codepoint < matching(table, query, up, low)[j].codepoint,
{
    tables_are_ordered_and_have_fallbacks(v, keep, names);
    let at = search_results_keep_the_order(table, query, up, low);
    assert(at[i] < at[j]);
    assert(stands_for(table[at[i]], v[at[i]]) && stands_for(table[at[j]], v[at[j]]));
    assert(v[at[i]].codepoint < v[at[j]].codepoint);
}

/// Every icon of a table is found by its codepoint, in decimal, in bare
/// hexadecimal and behind either prefix, and by its glyph.
pub proof fn icons_are_found_by_number_and_glyph(
    table: Seq<IconEntry>,
    k: int,
    up: Seq<char>,
    low: Seq<char>,
)
    requires
        0 <= k < table.len(),
    ensures
        matching(table, decimal(table[k].codepoint as nat), up, low).contains(table[k]),
        matching(table, hex4(table[k].codepoint as nat), up, low).contains(table[k]),
        matching(table, "0x"@ + hex4(table[k].codepoint as nat), up, low).contains(table[k]),
        matching(table, "U+"@ + hex4(table[k].codepoint as nat), up, low).contains(table[k]),
        matching(table, table[k].icon.glyph@, up, low).contains(table[k]),
{
    let e = table[k];
    let (d, x) = (decimal(e.codepoint as nat), hex4(e.codepoint as nat));
    let (a, b) = ("0x"@ + x, "U+"@ + x);
    let g = e.icon.glyph@;
    numeral_reads_back(e.codepoint as nat, 10, 1);
    numeral_reads_back(e.codepoint as nat, 16, 4);
    reveal_strlit("0x");
    reveal_strlit("U+");
    reveal_strlit("u+");
    lemma_digits_are_trimmed(d, 10);
    lemma_digits_are_trimmed(x, 16);
    assert(a.last() == x.last() && b.last() == x.last());
    assert(digit_value(x[x.len() - 1]) is Some);
    assert(trim(a) == a && trim(b) == b);
    assert(a.skip(2) =~= x && b.skip(2) =~= x);
    assert(a.subrange(0, 2) =~= "0x"@ && b.subrange(0, 2) =~= "U+"@);
    assert(begins_with(a, "0x"@) && begins_with(b, "U+"@));
    lemma_digits_have_no_prefix(d, 10);
    lemma_digits_have_no_prefix(x, 16);
    assert(denotes(trim(d), e.codepoint));
    assert(denotes(trim(x), e.codepoint));
    assert(denotes(trim(a), e.codepoint));
    assert(denotes(trim(b), e.codepoint));
    assert(g.subrange(0, g.len() as int) =~= g);
    assert(crate::text::occurs_at(g, g, 0));
    assert(table.contains(e));
    search_finds_exactly_the_matches(table, d, up, low, e);
    search_finds_exactly_the_matches(table, x, up, low, e);
    search_finds_exactly_the_matches(table, a, up, low, e);
    search_finds_exactly_the_matches(table, b, up, low, e);
    search_finds_exactly_the_matches(table, g, up, low, e);
}

/// Every icon of a table is found by every part of its name, its id and its
/// block, whatever the case.
pub proof fn icons_are_found_by_parts_of_their_texts(
    table: Seq<IconEntry>,
    k: int,
    query: Seq<char>,
)
    requires
        0 <= k < table.len(),
        contains(upper(table[k].unicode_name@), upper(query)) || contains(
            lower(table[k].id@),
            lower(query),
        ) || contains(lower(table[k].block@), lower(query)),
    ensures
        matching(table, query, upper(query), lower(query)).contains(table[k]),
{
    assert(table.contains(table[k]));
    search_finds_exactly_the_matches(table, query, upper(query), lower(query), table[k]);
}

proof fn lemma_digits_are_trimmed(s: Seq<char>, radix: nat)
    requires
        s.len() > 0,
        all_digits(s, radix),
    ensures
        trim(s) == s,
{
    assert(digit_value(s[0]) is Some);
    assert(digit_value(s[s.len() - 1]) is Some);
}

proof fn lemma_digits_have_no_prefix(s: Seq<char>, radix: nat)
    requires
        radix <= 16,
        all_digits(s, radix),
    ensures
        !hex_prefixed(s),
{
    reveal_strlit("0x");
    reveal_strlit("U+");
    reveal_strlit("u+");
    if s.len() >= 2 {
        assert(digit_value(s[0]) matches Some(a) && a < radix);
        assert(digit_value(s[1]) matches Some(b) && b < radix);
        assert(s.subrange(0, 2)[0] == s[0] && s.subrange(0, 2)[1] == s[1]);
    }
}

/// A query that begins like the ids of a block finds icons of that block alone,
/// provided that no name holds an underscore, as official names never do.
pub proof fn prefix_queries_stay_in_their_block(
    table: Seq<IconEntry>,
    v: Seq<Entry>,
    keep: spec_fn(Seq<char>) -> bool,
    names: Map<u32, String>,
    block: Block,
    query: Seq<char>,
    i: int,
)
    requires
        is_manifest(v, keep, names),
        is_table_of(table, v),
        forall|cp: u32| #[trigger] names.contains_key(cp) ==> !names[cp]@.contains('_'),
        begins_with(lower(query), block.prefix_text() + seq!['_']),
        0 <= i < matching(table, query, upper(query), lower(query)).len(),
    ensures
        begins_with(
            matching(table, query, upper(query), lower(query))[i].id@,
            block.prefix_text() + seq!['_'],
        ),
{
    let found = matching(table, query, upper(query), lower(query));
    let at = search_results_keep_the_order(table, query, upper(query), lower(query));
    let n = at[i];
    let e = table[n];
    assert(at.contains(n));
    assert(matches_query(table[n], query, upper(query), lower(query)));
    entries_come_from_candidates(v, keep, names);
    assert(stands_for(table[n], v[n]));
    assert(of_candidate(v[n], names));
    let c = choose|c: Candidate| #[trigger]
        is_entry_for(v[n], c, names) && is_entry(c, c.codepoint as int);
    let mark = block.prefix_text() + seq!['_'];
    let k = block.prefix_text().len() as int;
    lemma_prefixes(block);
    let l = lower(query);
    assert forall|j: int| 0 <= j <= k implies #[trigger] l[j] == mark[j] && ascii_lower(query[j])
        == mark[j] by {
        assert(l.subrange(0, k + 1)[j] == mark[j]);
    }
    assert(l[k] == '_' && l[0] == mark[0] && l[1] == mark[1]);
    assert(query[k] == '_');
    lemma_no_number(query, k);
    lemma_no_name(e.unicode_name@, query, k);
    if contains(e.icon.glyph@, query) {
        let p = choose|p: int| crate::text::occurs_at(e.icon.glyph@, query, p);
        assert(false);
    }
    lemma_prefixes(c.block);
    lemma_same_prefix(e, c, block, query);
}

/// Every prefix is three lower-case letters or more.
proof fn lemma_prefixes(block: Block)
    ensures
        block.prefix_text().len() >= 3,
        forall|j: int|
            0 <= j < block.prefix_text().len() ==> 'a' <= #[trigger] block.prefix_text()[j] <= 'z',
{
    reveal_strlit("ascii");
    reveal_strlit("arrow");
    reveal_strlit("box");
    reveal_strlit("block");
    reveal_strlit("geometric");
    reveal_strlit("misc");
    reveal_strlit("dingbat");
    reveal_strlit("braille");
}

/// A text with a letter first and an underscore in it denotes no codepoint.
proof fn lemma_no_number(s: Seq<char>, k: int)
    requires
        2 <= k < s.len(),
        s[k] == '_',
        'a' <= ascii_lower(s[0]) <= 'z',
        'a' <= ascii_lower(s[1]) <= 'z',
    ensures
        forall|cp: u32| !#[trigger] denotes(trim(s), cp),
{
    reveal_strlit("0x");
    reveal_strlit("U+");
    reveal_strlit("u+");
    assert(trim_start(s) == s);
    lemma_trim_end_keeps(s, k);
    let t = trim(s);
    assert(t[k] == '_' && t[0] == s[0] && t[1] == s[1]);
    assert(t.subrange(0, 2)[0] == t[0] && t.subrange(0, 2)[1] == t[1]);
    assert(!hex_prefixed(t));
    assert(digit_value(t[k]) is None);
    assert(!all_digits(t, 10) && !all_digits(t, 16));
}

proof fn lemma_trim_end_keeps(s: Seq<char>, k: int)
    requires
        0 <= k < s.len(),
        !is_space(s[k]),
    ensures
        trim_end(s).len() > k,
        forall|j: int| 0 <= j <= k ==> #[trigger] trim_end(s)[j] == s[j],
    decreases s.len(),
{
    if is_space(s.last()) {
        lemma_trim_end_keeps(s.drop_last(), k);
    }
}

/// A name without underscores has no part with one.
proof fn lemma_no_name(name: Seq<char>, query: Seq<char>, k: int)
    requires
        !name.contains('_'),
        0 <= k < query.len(),
        query[k] == '_',
    ensures
        !contains(upper(name), upper(query)),
{
    if contains(upper(name), upper(query)) {
        let (u, w) = (upper(name), upper(query));
        let p = choose|p: int| crate::text::occurs_at(u, w, p);
        assert(u.subrange(p, p + w.len())[k] == w[k]);
        assert(w[k] == ascii_upper(query[k]));
        assert(u[p + k] == ascii_upper(name[p + k]));
        assert(name[p + k] == '_');
    }
}

/// An id or a block that holds a block's prefix with the underscore behind it is
/// one of that block.
proof fn lemma_same_prefix(e: IconEntry, c: Candidate, block: Block, query: Seq<char>)
    requires
        is_entry(c, c.codepoint as int),
        e.id@ == c.id@,
        e.block@ == module_text(c.block),
        begins_with(lower(query), block.prefix_text() + seq!['_']),
        contains(lower(e.id@), lower(query)) || contains(lower(e.block@), lower(query)),
    ensures
        begins_with(e.id@, block.prefix_text() + seq!['_']),
{
    let (mine, asked) = (c.block.prefix_text(), block.prefix_text());
    let (l, k) = (lower(query), asked.len() as int);
    let mark = asked + seq!['_'];
    lemma_prefixes(block);
    lemma_prefixes(c.block);
    assert(l.subrange(0, k + 1)[k] == '_' && l.subrange(0, k + 1)[k - 1] == asked[k - 1]);
    assert(mine.len() > 0 && mine[mine.len() - 1] == asked[k - 1]) by {
        if contains(lower(e.id@), l) {
            let s = lower(e.id@);
            let p = choose|p: int| crate::text::occurs_at(s, l, p);
            assert(s.subrange(p, p + l.len())[k] == l[k] && s.subrange(p, p + l.len())[k - 1]
                == l[k - 1]);
            lemma_one_underscore(c, p + k);
            assert(s[p + k - 1] == ascii_lower(e.id@[p + k - 1]));
            assert(e.id@[p + k - 1] == mine[p + k - 1]);
        } else {
            let s = lower(e.block@);
            let p = choose|p: int| crate::text::occurs_at(s, l, p);
            assert(s.subrange(p, p + l.len())[k] == l[k] && s.subrange(p, p + l.len())[k - 1]
                == l[k - 1]);
            assert(s[p + k] == ascii_lower(e.block@[p + k]));
            assert(s[p + k - 1] == ascii_lower(e.block@[p + k - 1]));
            reveal_strlit("ascii");
            reveal_strlit("box_drawing");
            reveal_strlit("block_elements");
            reveal_strlit("braille");
            reveal_strlit("box");
            reveal_strlit("block");
        }
    }
    assert(mine == asked) by {
        reveal_strlit("ascii");
        reveal_strlit("arrow");
        reveal_strlit("box");
        reveal_strlit("block");
        reveal_strlit("geometric");
        reveal_strlit("misc");
        reveal_strlit("dingbat");
        reveal_strlit("braille");
    }
    assert(e.id@.subrange(0, k + 1) =~= mark);
}

/// An id has one underscore, behind its prefix.
proof fn lemma_one_underscore(c: Candidate, i: int)
    requires
        is_entry(c, c.codepoint as int),
        0 <= i < c.id@.len(),
        ascii_lower(c.id@[i]) == '_',
    ensures
        i == c.block.prefix_text().len(),
{
    lemma_prefixes(c.block);
    numeral_reads_back(c.codepoint as nat, 16, 4);
    let n = c.block.prefix_text().len() as int;
    let x = hex4(c.codepoint as nat);
    if i < n {
        assert(c.id@[i] == c.block.prefix_text()[i]);
    } else if i > n {
        assert(c.id@[i] == x[i - n - 1]);
        assert(digit_value(x[i - n - 1]) is Some);
    }
}

// ---------------------------------------------------------------------------
// What a search finds
// ---------------------------------------------------------------------------
/// From position `at` on, the text reads `part` once its small letters are
/// capitals.
pub open spec fn capitals_at(text: Seq<char>, part: Seq<char>, at: int) -> bool {
    &&& 0 <= at
    &&& at + part.len() <= text.len()
    &&& forall|i: int|
        0 <= i < part.len() ==> #[trigger] part[i] as u32 == (if 'a' <= text[at + i] <= 'z' {
            text[at + i] as u32 - 32
        } else {
            text[at + i] as u32 as int
        })
}

/// From position `at` on, the text reads `part` once its capitals are small
/// letters.
pub open spec fn smalls_at(text: Seq<char>, part: Seq<char>, at: int) -> bool {
    &&& 0 <= at
    &&& at + part.len() <= text.len()
    &&& forall|i: int|
        0 <= i < part.len() ==> #[trigger] part[i] as u32 == (if 'A' <= text[at + i] <= 'Z' {
            text[at + i] as u32 + 32
        } else {
            text[at + i] as u32 as int
        })
}

/// From position `at` on, the text reads `part` as it is.
pub open spec fn reads_at(text: Seq<char>, part: Seq<char>, at: int) -> bool {
    &&& 0 <= at
    &&& at + part.len() <= text.len()
    &&& forall|i: int| 0 <= i < part.len() ==> #[trigger] part[i] == text[at + i]
}

/// The query without its surrounding white space is a number of the codepoint: in
/// hexadecimal behind `0x`, `U+` or `u+`, and without such a prefix in decimal or
/// in hexadecimal.
pub open spec fn numbers_codepoint(query: Seq<char>, cp: u32) -> bool {
    let t = trim(query);
    ||| exists|d: Seq<char>|
        (t == "0x"@ + d || t == "U+"@ + d || t == "u+"@ + d) && #[trigger] parse_u32(d, 16) == Some(
            cp,
        )
    ||| (forall|d: Seq<char>| t != #[trigger] ("0x"@ + d) && t != "U+"@ + d && t != "u+"@ + d) && (
    parse_u32(t, 10) == Some(cp) || parse_u32(t, 16) == Some(cp))
}

proof fn lemma_same_char(a: char, b: char)
    requires
        a as u32 == b as u32,
    ensures
        a == b,
{
}

proof fn lemma_capitals(text: Seq<char>, part: Seq<char>)
    ensures
        contains(upper(text), part) <==> exists|at: int| capitals_at(text, part, at),
{
    let u = upper(text);
    assert forall|at: int| crate::text::occurs_at(u, part, at) == capitals_at(text, part, at) by {
        if crate::text::occurs_at(u, part, at) {
            assert forall|i: int| 0 <= i < part.len() implies #[trigger] part[i] as u32 == (if 'a'
                <= text[at + i] <= 'z' {
                text[at + i] as u32 - 32
            } else {
                text[at + i] as u32 as int
            }) by {
                assert(u.subrange(at, at + part.len())[i] == part[i]);
                assert(u[at + i] == ascii_upper(text[at + i]));
            }
        }
        if capitals_at(text, part, at) {
            assert forall|i: int| 0 <= i < part.len() implies u.subrange(at, at + part.len())[i]
                == part[i] by {
                assert(u[at + i] == ascii_upper(text[at + i]));
                lemma_same_char(part[i], u[at + i]);
            }
            assert(u.subrange(at, at + part.len()) =~= part);
        }
    }
    if exists|at: int| capitals_at(text, part, at) {
        let at = choose|at: int| capitals_at(text, part, at);
        assert(crate::text::occurs_at(u, part, at));
    }
    if contains(u, part) {
        let at = choose|at: int| crate::text::occurs_at(u, part, at);
        assert(capitals_at(text, part, at));
    }
}

proof fn lemma_smalls(text: Seq<char>, part: Seq<char>)
    ensures
        contains(lower(text), part) <==> exists|at: int| smalls_at(text, part, at),
{
    let u = lower(text);
    assert forall|at: int| crate::text::occurs_at(u, part, at) == smalls_at(text, part, at) by {
        if crate::text::occurs_at(u, part, at) {
            assert forall|i: int| 0 <= i < part.len() implies #[trigger] part[i] as u32 == (if 'A'
                <= text[at + i] <= 'Z' {
                text[at + i] as u32 + 32
            } else {
                text[at + i] as u32 as int
            }) by {
                assert(u.subrange(at, at + part.len())[i] == part[i]);
                assert(u[at + i] == ascii_lower(text[at + i]));
            }
        }
        if smalls_at(text, part, at) {
            assert forall|i: int| 0 <= i < part.len() implies u.subrange(at, at + part.len())[i]
                == part[i] by {
                assert(u[at + i] == ascii_lower(text[at + i]));
                lemma_same_char(part[i], u[at + i]);
            }
            assert(u.subrange(at, at + part.len()) =~= part);
        }
    }
    if exists|at: int| smalls_at(text, part, at) {
        let at = choose|at: int| smalls_at(text, part, at);
        assert(crate::text::occurs_at(u, part, at));
    }
    if contains(u, part) {
        let at = choose|at: int| crate::text::occurs_at(u, part, at);
        assert(smalls_at(text, part, at));
    }
}

proof fn lemma_reads(text: Seq<char>, part: Seq<char>)
    ensures
        contains(text, part) <==> exists|at: int| reads_at(text, part, at),
{
    assert forall|at: int| crate::text::occurs_at(text, part, at) == reads_at(text, part, at) by {
        if crate::text::occurs_at(text, part, at) {
            assert forall|i: int| 0 <= i < part.len() implies #[trigger] part[i] == text[at + i] by {
                assert(text.subrange(at, at + part.len())[i] == part[i]);
            }
        }
        if reads_at(text, part, at) {
            assert(text.subrange(at, at + part.len()) =~= part);
        }
    }
    if exists|at: int| reads_at(text, part, at) {
        let at = choose|at: int| reads_at(text, part, at);
        assert(crate::text::occurs_at(text, part, at));
    }
    if contains(text, part) {
        let at = choose|at: int| crate::text::occurs_at(text, part, at);
        assert(reads_at(text, part, at));
    }
}

proof fn lemma_numbers(query: Seq<char>, cp: u32)
    ensures
        numbers_codepoint(query, cp) == denotes(trim(query), cp),
{
    reveal_strlit("0x");
    reveal_strlit("U+");
    reveal_strlit("u+");
    let t = trim(query);
    assert forall|w: Seq<char>, d: Seq<char>| w.len() == 2 && t == #[trigger] (w + d) implies
        begins_with(t, w) && t.skip(2) == d by {
        assert(t.subrange(0, 2) =~= w);
        assert(t.skip(2) =~= d);
    }
    let (a, b, c) = ("0x"@, "U+"@, "u+"@);
    assert(a.len() == 2 && b.len() == 2 && c.len() == 2);
    if hex_prefixed(t) {
        let d = t.skip(2);
        let w = t.subrange(0, 2);
        assert(w == a || w == b || w == c);
        assert(t =~= w + d);
        assert(t == a + d || t == b + d || t == c + d);
        if exists|e: Seq<char>|
            (t == a + e || t == b + e || t == c + e) && #[trigger] parse_u32(e, 16) == Some(cp) {
            let e = choose|e: Seq<char>|
                (t == a + e || t == b + e || t == c + e) && #[trigger] parse_u32(e, 16) == Some(cp);
            assert(t.skip(2) =~= e);
        }
    } else {
        assert forall|d: Seq<char>| t != #[trigger] (a + d) && t != b + d && t != c + d by {
            if t == a + d {
                assert(t.subrange(0, 2) =~= a);
            }
            if t == b + d {
                assert(t.subrange(0, 2) =~= b);
            }
            if t == c + d {
                assert(t.subrange(0, 2) =~= c);
            }
        }
    }
}

/// The entry has the codepoint which the query numbers, or holds the query as a part
/// of its name, its id or its block whatever the case, or as a part of its glyph.
pub open spec fn holds_query(
    e: IconEntry,
    query: Seq<char>,
    up: Seq<char>,
    low: Seq<char>,
) -> bool {
    ||| numbers_codepoint(query, e.codepoint)
    ||| exists|at: int| capitals_at(e.unicode_name@, up, at)
    ||| exists|at: int| smalls_at(e.id@, low, at)
    ||| exists|at: int| smalls_at(e.block@, low, at)
    ||| exists|at: int| reads_at(e.icon.glyph@, query, at)
}

/// What a search finds, field by field: exactly the entries of the set that have
/// the codepoint which the query numbers, or hold the query as a part of their
/// name, their id or their block whatever the case, or as a part of their glyph.
/// Nothing else of an entry is looked at.
pub proof fn found_means_number_name_id_block_or_glyph(
    entries: Seq<IconEntry>,
    query: Seq<char>,
    up: Seq<char>,
    low: Seq<char>,
    e: IconEntry,
)
    ensures
        matching(entries, query, up, low).contains(e) <==> entries.contains(e) && {
            ||| numbers_codepoint(query, e.codepoint)
            ||| exists|at: int| capitals_at(e.unicode_name@, up, at)
            ||| exists|at: int| smalls_at(e.id@, low, at)
            ||| exists|at: int| smalls_at(e.block@, low, at)
            ||| exists|at: int| reads_at(e.icon.glyph@, query, at)
        },
{
    search_finds_exactly_the_matches(entries, query, up, low, e);
    lemma_numbers(query, e.codepoint);
    lemma_capitals(e.unicode_name@, up);
    lemma_smalls(e.id@, low);
    lemma_smalls(e.block@, low);
    lemma_reads(e.icon.glyph@, query);
}

/// The fallback of an icon is never searched: two sets that differ in fallbacks
/// alone are searched alike, entry by entry.
pub proof fn fallbacks_are_never_searched(
    entries: Seq<IconEntry>,
    other: Seq<IconEntry>,
    query: Seq<char>,
    up: Seq<char>,
    low: Seq<char>,
)
    requires
        entries.len() == other.len(),
        forall|i: int|
            #![trigger entries[i]]
            0 <= i < entries.len() ==> entries[i].icon.glyph@ == other[i].icon.glyph@
                && entries[i].id@ == other[i].id@ && entries[i].codepoint == other[i].codepoint
                && entries[i].block@ == other[i].block@ && entries[i].unicode_name@
                == other[i].unicode_name@,
    ensures
        matching(entries, query, up, low).len() == matching(other, query, up, low).len(),
        forall|i: int|
            0 <= i < matching(entries, query, up, low).len() ==> (#[trigger] matching(
                entries,
                query,
                up,
                low,
            )[i]).id@ == matching(other, query, up, low)[i].id@,
    decreases entries.len(),
{
    if entries.len() > 0 {
        let (a, b) = (entries.drop_last(), other.drop_last());
        assert forall|i: int|
            #![trigger a[i]]
            0 <= i < a.len() implies a[i].icon.glyph@ == b[i].icon.glyph@ && a[i].id@ == b[i].id@
            && a[i].codepoint == b[i].codepoint && a[i].block@ == b[i].block@ && a[i].unicode_name@
            == b[i].unicode_name@ by {
            assert(a[i] == entries[i]);
        }
        fallbacks_are_never_searched(a, b, query, up, low);
        let n = entries.len() - 1;
        assert(entries[n].id@ == other[n].id@);
        let (s, t) = (matching(a, query, up, low), matching(b, query, up, low));
        let (u, v) = (matching(entries, query, up, low), matching(other, query, up, low));
        assert forall|i: int| 0 <= i < u.len() implies (#[trigger] u[i]).id@ == v[i].id@ by {
            if i < s.len() {
                assert(u[i] == s[i] && v[i] == t[i]);
            }
        }
    }
}

/// A lookup by id or by codepoint answers with the first entry that has it, and
/// with nothing exactly if no entry does.
pub proof fn lookups_answer_with_the_first(entries: Seq<IconEntry>, id: Seq<char>, cp: u32)
    ensures
        match entry_at(entries, first_id(entries, id, 0)) {
            Some(e) => exists|k: int|
                #![trigger entries[k]]
                0 <= k < entries.len() && entries[k] == e && e.id@ == id && forall|j: int|
                    0 <= j < k ==> (#[trigger] entries[j]).id@ != id,
            None => forall|k: int| 0 <= k < entries.len() ==> (#[trigger] entries[k]).id@ != id,
        },
        match entry_at(entries, first_codepoint(entries, cp, 0)) {
            Some(e) => exists|k: int|
                #![trigger entries[k]]
                0 <= k < entries.len() && entries[k] == e && e.codepoint == cp && forall|j: int|
                    0 <= j < k ==> (#[trigger] entries[j]).codepoint != cp,
            None => forall|k: int|
                0 <= k < entries.len() ==> (#[trigger] entries[k]).codepoint != cp,
        },
{
    lemma_first_id(entries, id, 0);
    lemma_first_codepoint(entries, cp, 0);
    let (a, b) = (first_id(entries, id, 0), first_codepoint(entries, cp, 0));
    if a < entries.len() {
        assert(entries[a].id@ == id);
    }
    if b < entries.len() {
        assert(entries[b].codepoint == cp);
    }
}

/// A lookup gives the icon of the entry that it finds.
pub proof fn lookups_give_the_icon(e: IconEntry, entries: Seq<IconEntry>, i: int)
    ensures
        icon_of(Some(e)) == Some(e.icon),
        icon_of(None) is None,
        0 <= i < entries.len() ==> entry_at(entries, i) == Some(entries[i]),
        i >= entries.len() ==> entry_at(entries, i) is None,
{
}

} // verus!
