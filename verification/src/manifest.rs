//! The AND gate: per-platform verdicts in, the shipped icon set out.
//!
//! Also the parsers of the two text files around it: the generated manifest,
//! from which ids are scraped, and the Unicode character data extract, from
//! which official names are read.
use crate::catalog::{
    candidates, is_entry, is_registry, is_scalar, Block, Candidate,
};
use crate::chart::name_of;
use crate::text::{
    ascii_upper, begins_with, chars_of, find_char, find_chars, index_from, is_listed, lines, listed, lower,
    matches_at, parse_u32, position, push_str, quote, quoted, read_u32, same_text, slice_chars,
    split_lines, text_of, to_lower, upper, views,
};
use std::collections::HashMap;
use vstd::prelude::*;

verus! {

// ---------------------------------------------------------------------------
// Scraping ids
// ---------------------------------------------------------------------------
/// What stands before an id in a generated manifest.
pub open spec fn id_mark() -> Seq<char> {
    "id: \""@
}

/// The id on a line of a generated manifest.
pub open spec fn line_id(line: Seq<char>) -> Option<Seq<char>> {
    let at = position(line, id_mark(), 0);
    let from = at + id_mark().len();
    let end = index_from(line, '"', from);
    if at < 0 || end >= line.len() {
        None
    } else {
        Some(line.subrange(from, end))
    }
}

/// The ids of the lines, each once, in the order of their first occurrence.
pub open spec fn scraped(lines: Seq<Seq<char>>) -> Seq<Seq<char>>
    decreases lines.len(),
{
    if lines.len() == 0 {
        seq![]
    } else {
        let init = scraped(lines.drop_last());
        match line_id(lines.last()) {
            Some(id) => if init.contains(id) {
                init
            } else {
                init.push(id)
            },
            None => init,
        }
    }
}

/// Strings as character sequences.
pub open spec fn texts(v: Seq<String>) -> Seq<Seq<char>> {
    v.map_values(|s: String| s@)
}

fn scrape_line(line: &[char]) -> (out: Option<String>)
    ensures
        match out {
            Some(s) => line_id(line@) == Some(s@),
            None => line_id(line@) is None,
        },
{
    let mark = chars_of("id: \"");
    let n = line.len();
    match find_chars(line, mark.as_slice()) {
        None => None,
        Some(at) => {
            let from = at + mark.len();
            let end = find_char(line, '"', from);
            if end >= n {
                return None;
            }
            let id = slice_chars(line, from, end);
            Some(text_of(id.as_slice()))
        },
    }
}

/// Ids present in a previously committed (or freshly regenerated) generated
/// manifest. The contents of a missing file are empty.
pub fn previous_ids(raw: &str) -> (ids: Vec<String>)
    ensures
        texts(ids@) == scraped(lines(raw@)),
{
    let chars = chars_of(raw);
    let all = split_lines(chars.as_slice());
    let ghost ls = lines(raw@);
    let mut ids: Vec<String> = Vec::new();
    assert(texts(ids@) =~= seq![]);
    for i in 0..all.len()
        invariant
            views(all@) == ls,
            texts(ids@) == scraped(ls.take(i as int)),
    {
        proof {
            assert(ls.take(i + 1).drop_last() =~= ls.take(i as int));
            assert(ls.take(i + 1).last() == all@[i as int]@) by {
                assert(views(all@)[i as int] == all@[i as int]@);
            }
            assert(views(all@).len() == all@.len());
        }
        if let Some(id) = scrape_line(all[i].as_slice()) {
            let ghost before = ids@;
            proof {
                lemma_texts(before, id@);
            }
            if !is_listed(ids.as_slice(), id.as_str()) {
                ids.push(id);
                assert(texts(ids@) =~= texts(before).push(id@));
            }
        }
    }
    assert(ls.take(ls.len() as int) =~= ls);
    ids
}

/// Being listed is being one of the texts.
proof fn lemma_texts(v: Seq<String>, s: Seq<char>)
    ensures
        listed(v, s) == texts(v).contains(s),
{
    if listed(v, s) {
        let i = choose|i: int| 0 <= i < v.len() && (#[trigger] v[i])@ == s;
        assert(texts(v)[i] == s);
    }
    if texts(v).contains(s) {
        let i = choose|i: int| 0 <= i < texts(v).len() && texts(v)[i] == s;
        assert(v[i]@ == s);
    }
}

// ---------------------------------------------------------------------------
// Unicode names
// ---------------------------------------------------------------------------
/// Codepoint and name of a line of character data: the first two of its
/// semicolon-separated fields, the first of them hexadecimal.
pub open spec fn ucd_line(line: Seq<char>) -> Option<(u32, Seq<char>)> {
    let k = index_from(line, ';', 0);
    if k >= line.len() {
        None
    } else {
        match parse_u32(line.take(k), 16) {
            Some(cp) => Some((cp, line.subrange(k + 1, index_from(line, ';', k + 1)))),
            None => None,
        }
    }
}

/// The names of the lines; of two lines for one codepoint the later counts.
pub open spec fn ucd_names(lines: Seq<Seq<char>>) -> Map<u32, Seq<char>>
    decreases lines.len(),
{
    if lines.len() == 0 {
        Map::empty()
    } else {
        match ucd_line(lines.last()) {
            Some(e) => ucd_names(lines.drop_last()).insert(e.0, e.1),
            None => ucd_names(lines.drop_last()),
        }
    }
}

/// Number of malformed lines.
pub open spec fn ucd_skipped(lines: Seq<Seq<char>>) -> nat
    decreases lines.len(),
{
    if lines.len() == 0 {
        0
    } else {
        ucd_skipped(lines.drop_last()) + (if ucd_line(lines.last()) is None {
            1nat
        } else {
            0
        })
    }
}

/// The map holds the names.
pub open spec fn holds_names(map: Map<u32, String>, names: Map<u32, Seq<char>>) -> bool {
    &&& map.dom() == names.dom()
    &&& forall|cp: u32| #[trigger] names.contains_key(cp) ==> map[cp]@ == names[cp]
}

fn read_ucd_line(line: &[char]) -> (out: Option<(u32, String)>)
    ensures
        match out {
            Some(e) => ucd_line(line@) == Some((e.0, e.1@)),
            None => ucd_line(line@) is None,
        },
{
    let n = line.len();
    let k = find_char(line, ';', 0);
    if k >= n {
        return None;
    }
    let field = slice_chars(line, 0, k);
    assert(field@ =~= line@.take(k as int));
    match read_u32(field.as_slice(), 16) {
        None => None,
        Some(cp) => {
            let end = find_char(line, ';', k + 1);
            let name = slice_chars(line, k + 1, end);
            Some((cp, text_of(name.as_slice())))
        },
    }
}

/// Load character data into a codepoint-to-name map, and count the malformed or
/// truncated lines that were skipped.
pub fn load_ucd_names(raw: &str) -> (out: (HashMap<u32, String>, usize))
    ensures
        holds_names(out.0@, ucd_names(lines(raw@))),
        out.1 == ucd_skipped(lines(raw@)),
{
    broadcast use vstd::std_specs::hash::group_hash_axioms;

    let chars = chars_of(raw);
    let all = split_lines(chars.as_slice());
    let ghost ls = lines(raw@);
    let mut names: HashMap<u32, String> = HashMap::new();
    let mut skipped: usize = 0;
    assert(names@.dom() =~= ucd_names(ls.take(0)).dom());
    for i in 0..all.len()
        invariant
            views(all@) == ls,
            holds_names(names@, ucd_names(ls.take(i as int))),
            skipped == ucd_skipped(ls.take(i as int)),
            skipped <= i,
    {
        broadcast use vstd::std_specs::hash::group_hash_axioms;

        proof {
            assert(ls.take(i + 1).drop_last() =~= ls.take(i as int));
            assert(ls.take(i + 1).last() == all@[i as int]@) by {
                assert(views(all@)[i as int] == all@[i as int]@);
            }
            assert(views(all@).len() == all@.len());
        }
        match read_ucd_line(all[i].as_slice()) {
            Some((cp, name)) => {
                let ghost before = names@;
                let ghost spec_before = ucd_names(ls.take(i as int));
                names.insert(cp, name);
                proof {
                    let after = ucd_names(ls.take(i + 1));
                    assert(after == spec_before.insert(cp, name@));
                    assert(names@.dom() =~= after.dom());
                    assert forall|c: u32| #[trigger] after.contains_key(c) implies names@[c]@
                        == after[c] by {
                        if c != cp {
                            assert(spec_before.contains_key(c));
                        }
                    }
                }
            },
            None => {
                skipped += 1;
            },
        }
    }
    assert(ls.take(ls.len() as int) =~= ls);
    (names, skipped)
}

// ---------------------------------------------------------------------------
// Hosts
// ---------------------------------------------------------------------------
/// A platform family with its sanctioned host emulators.
pub enum Family {
    /// Windows.
    Windows,
    /// Linux.
    Linux,
    /// macOS.
    Macos,
}

/// The family of a platform label, by prefix and whatever its case.
pub open spec fn family_of(platform: Seq<char>) -> Option<Family> {
    let l = lower(platform);
    if begins_with(l, "windows"@) {
        Some(Family::Windows)
    } else if begins_with(l, "linux"@) {
        Some(Family::Linux)
    } else if begins_with(l, "macos"@) {
        Some(Family::Macos)
    } else {
        None
    }
}

/// The host is sanctioned for the family.
pub open spec fn sanctioned(f: Family, host: Seq<char>) -> bool {
    match f {
        Family::Windows => host == "wt"@ || host == "conhost"@,
        Family::Linux => host == "xterm"@ || host == "gnome-terminal"@,
        Family::Macos => host == "terminal-app"@,
    }
}

/// The sanctioned hosts of the family, as a list in words.
pub open spec fn sanctioned_text(f: Family) -> Seq<char> {
    match f {
        Family::Windows => "[\"wt\", \"conhost\"]"@,
        Family::Linux => "[\"xterm\", \"gnome-terminal\"]"@,
        Family::Macos => "[\"terminal-app\"]"@,
    }
}

/// What is wrong with a host: nothing, where the platform has no policy.
pub open spec fn host_fault(platform: Seq<char>, host: Seq<char>) -> Option<Seq<char>> {
    match family_of(platform) {
        None => None,
        Some(f) => if sanctioned(f, host) {
            None
        } else {
            Some(
                "platform '"@ + platform + "': host '"@ + host + "' not in sanctioned set "@
                    + sanctioned_text(f),
            )
        },
    }
}

fn find_family(platform: &str) -> (f: Option<Family>)
    ensures
        f == family_of(platform@),
{
    let c = chars_of(platform);
    let l = to_lower(c.as_slice());
    if matches_at(l.as_slice(), chars_of("windows").as_slice(), 0) {
        Some(Family::Windows)
    } else if matches_at(l.as_slice(), chars_of("linux").as_slice(), 0) {
        Some(Family::Linux)
    } else if matches_at(l.as_slice(), chars_of("macos").as_slice(), 0) {
        Some(Family::Macos)
    } else {
        None
    }
}

/// Checks that the host emulator is one that is sanctioned for the platform.
pub fn validate_host(platform: &str, host: &str) -> (out: Result<(), String>)
    ensures
        match out {
            Ok(()) => host_fault(platform@, host@) is None,
            Err(s) => host_fault(platform@, host@) == Some(s@),
        },
{
    let family = match find_family(platform) {
        None => {
            return Ok(());
        },
        Some(f) => f,
    };
    let (ok, allowed) = match &family {
        Family::Windows => (
            same_text(host, "wt") || same_text(host, "conhost"),
            "[\"wt\", \"conhost\"]",
        ),
        Family::Linux => (
            same_text(host, "xterm") || same_text(host, "gnome-terminal"),
            "[\"xterm\", \"gnome-terminal\"]",
        ),
        Family::Macos => (same_text(host, "terminal-app"), "[\"terminal-app\"]"),
    };
    if ok {
        return Ok(());
    }
    let mut out: Vec<char> = Vec::new();
    push_str(&mut out, "platform '");
    push_str(&mut out, platform);
    push_str(&mut out, "': host '");
    push_str(&mut out, host);
    push_str(&mut out, "' not in sanctioned set ");
    push_str(&mut out, allowed);
    Err(text_of(out.as_slice()))
}

// ---------------------------------------------------------------------------
// Aggregation
// ---------------------------------------------------------------------------
/// Verdicts of one platform, as far as the aggregation reads them.
#[derive(Clone, Debug)]
pub struct VerdictsFile {
    /// Platform label.
    pub platform: String,
    /// Host emulator.
    pub host: String,
    /// Whether Pass 1 ran and the capture could be analyzed.
    pub pass1_support: bool,
    /// Why the capture could not be analyzed.
    pub structural_fail: Option<String>,
    /// One entry per candidate.
    pub results: Vec<VerdictEntry>,
}

/// One candidate's outcome on one platform.
#[derive(Clone, Debug)]
pub struct VerdictEntry {
    /// Catalog id.
    pub id: String,
    /// `pass` or anything else.
    pub overall: String,
}

/// One icon of the shipped set.
#[derive(Clone, Debug)]
pub struct Entry {
    /// Catalog id.
    pub id: String,
    /// Codepoint of the glyph.
    pub codepoint: u32,
    /// Module of the icon's block.
    pub module: &'static str,
    /// Constant name.
    pub const_name: String,
    /// The glyph.
    pub glyph: char,
    /// ASCII substitute.
    pub fallback: &'static str,
    /// Official Unicode name, empty where unknown.
    pub unicode_name: String,
}

/// Why verdicts cannot be aggregated. `file` is the position of the input at
/// fault.
#[derive(Clone, Debug)]
pub enum ManifestError {
    /// A host that is not sanctioned for its platform.
    Host {
        /// The input.
        file: usize,
        /// What is wrong.
        message: String,
    },
    /// A run without Pass 1.
    Degraded {
        /// The input.
        file: usize,
    },
    /// A run whose capture could not be analyzed.
    Unanalyzed {
        /// The input.
        file: usize,
        /// Why it could not.
        reason: String,
    },
    /// The inputs do not speak of the same candidates.
    UniverseSkew,
}

/// An error with its texts taken as characters.
pub ghost enum ManifestFault {
    /// A host that is not sanctioned for its platform.
    Host(int, Seq<char>),
    /// A run without Pass 1.
    Degraded(int),
    /// A run whose capture could not be analyzed.
    Unanalyzed(int, Seq<char>),
    /// The inputs do not speak of the same candidates.
    UniverseSkew,
}

impl ManifestError {
    /// The error with its texts taken as characters.
    pub open spec fn view(&self) -> ManifestFault {
        match *self {
            ManifestError::Host { file, message } => ManifestFault::Host(file as int, message@),
            ManifestError::Degraded { file } => ManifestFault::Degraded(file as int),
            ManifestError::Unanalyzed { file, reason } => ManifestFault::Unanalyzed(
                file as int,
                reason@,
            ),
            ManifestError::UniverseSkew => ManifestFault::UniverseSkew,
        }
    }

    /// The input at fault.
    pub fn file(&self) -> (f: Option<usize>)
        ensures
            match self@ {
                ManifestFault::Host(i, _) => f matches Some(k) && k == i,
                ManifestFault::Degraded(i) => f matches Some(k) && k == i,
                ManifestFault::Unanalyzed(i, _) => f matches Some(k) && k == i,
                ManifestFault::UniverseSkew => f is None,
            },
    {
        match self {
            ManifestError::Host { file, .. } => Some(*file),
            ManifestError::Degraded { file } => Some(*file),
            ManifestError::Unanalyzed { file, .. } => Some(*file),
            ManifestError::UniverseSkew => None,
        }
    }

    /// The error in words.
    pub fn message(&self) -> (s: String)
        ensures
            s@ == fault_text(self@),
    {
        match self {
            ManifestError::Host { message, .. } => message.clone(),
            ManifestError::Degraded { .. } =>
                "pass1_support=false — a degraded run can never pass aggregation".to_owned(),
            ManifestError::Unanalyzed { reason, .. } => {
                let shown = quote(reason.as_str());
                unanalyzed_message(shown.as_str())
            },
            ManifestError::UniverseSkew =>
                "input verdict universes differ — catalogs out of sync between runs".to_owned(),
        }
    }
}

/// The text of an error.
pub open spec fn fault_text(f: ManifestFault) -> Seq<char> {
    match f {
        ManifestFault::Host(_, m) => m,
        ManifestFault::Degraded(_) =>
            "pass1_support=false — a degraded run can never pass aggregation"@,
        ManifestFault::Unanalyzed(_, reason) => unanalyzed_text(quoted(reason)),
        ManifestFault::UniverseSkew =>
            "input verdict universes differ — catalogs out of sync between runs"@,
    }
}

/// The text of a structural failure, given its reason in quotes.
pub open spec fn unanalyzed_text(shown: Seq<char>) -> Seq<char> {
    "structural failure Some("@ + shown + ") — nothing passes"@
}

/// The text of a structural failure, given its reason in quotes.
pub fn unanalyzed_message(shown: &str) -> (s: String)
    ensures
        s@ == unanalyzed_text(shown@),
{
    let mut out: Vec<char> = Vec::new();
    push_str(&mut out, "structural failure Some(");
    push_str(&mut out, shown);
    push_str(&mut out, ") — nothing passes");
    assert(out@ =~= unanalyzed_text(shown@));
    text_of(out.as_slice())
}

/// The fault of input `i`.
pub open spec fn file_fault(f: VerdictsFile, i: int) -> Option<ManifestFault> {
    if host_fault(f.platform@, f.host@) is Some {
        Some(ManifestFault::Host(i, host_fault(f.platform@, f.host@).unwrap()))
    } else if !f.pass1_support {
        Some(ManifestFault::Degraded(i))
    } else if f.structural_fail is Some {
        Some(ManifestFault::Unanalyzed(i, f.structural_fail.unwrap()@))
    } else {
        None
    }
}

/// The first fault of the inputs from `i` on.
pub open spec fn files_fault(files: Seq<VerdictsFile>, i: int) -> Option<ManifestFault>
    decreases files.len() - i,
{
    if i >= files.len() {
        None
    } else if file_fault(files[i], i) is Some {
        file_fault(files[i], i)
    } else {
        files_fault(files, i + 1)
    }
}

/// The input speaks of the candidate.
pub open spec fn speaks_of(f: VerdictsFile, id: Seq<char>) -> bool {
    exists|i: int| 0 <= i < f.results@.len() && (#[trigger] f.results@[i]).id@ == id
}

/// The candidate passed on the input's platform.
pub open spec fn passes_in(f: VerdictsFile, id: Seq<char>) -> bool {
    exists|i: int|
        0 <= i < f.results@.len() && (#[trigger] f.results@[i]).id@ == id && f.results@[i].overall@
            == "pass"@
}

/// Two inputs speak of the same candidates.
pub open spec fn same_universe(f: VerdictsFile, g: VerdictsFile) -> bool {
    forall|id: Seq<char>| #[trigger] speaks_of(f, id) <==> speaks_of(g, id)
}

/// All inputs speak of the same candidates.
pub open spec fn one_universe(files: Seq<VerdictsFile>) -> bool {
    forall|i: int| 0 <= i < files.len() - 1 ==> same_universe(#[trigger] files[i], files[i + 1])
}

/// On how many of the inputs' platforms the candidate failed.
pub open spec fn failures(files: Seq<VerdictsFile>, id: Seq<char>) -> nat
    decreases files.len(),
{
    if files.len() == 0 {
        0
    } else {
        failures(files.drop_last(), id) + (if passes_in(files.last(), id) {
            0nat
        } else {
            1
        })
    }
}

/// The candidate is shipped: it passed on every platform, or it was shipped
/// before and failed on fewer than two platforms, so that one runner's rendering
/// difference cannot purge it.
pub open spec fn survives(files: Seq<VerdictsFile>, previous: Seq<String>, id: Seq<char>) -> bool {
    files.len() > 0 && (failures(files, id) == 0 || (listed(previous, id) && failures(files, id)
        < 2))
}

fn check_file(f: &VerdictsFile, i: usize) -> (out: Result<(), ManifestError>)
    ensures
        match out {
            Ok(()) => file_fault(*f, i as int) is None,
            Err(e) => file_fault(*f, i as int) == Some(e@),
        },
{
    match validate_host(f.platform.as_str(), f.host.as_str()) {
        Err(message) => {
            return Err(ManifestError::Host { file: i, message });
        },
        Ok(()) => {},
    }
    if !f.pass1_support {
        return Err(ManifestError::Degraded { file: i });
    }
    if let Some(reason) = &f.structural_fail {
        return Err(ManifestError::Unanalyzed { file: i, reason: reason.clone() });
    }
    Ok(())
}

fn mentions(f: &VerdictsFile, id: &str) -> (found: bool)
    ensures
        found == speaks_of(*f, id@),
{
    for i in 0..f.results.len()
        invariant
            forall|j: int| 0 <= j < i ==> (#[trigger] f.results@[j]).id@ != id@,
    {
        if same_text(f.results[i].id.as_str(), id) {
            return true;
        }
    }
    false
}

fn passed_in(f: &VerdictsFile, id: &str) -> (found: bool)
    ensures
        found == passes_in(*f, id@),
{
    for i in 0..f.results.len()
        invariant
            forall|j: int|
                0 <= j < i ==> !((#[trigger] f.results@[j]).id@ == id@ && f.results@[j].overall@
                    == "pass"@),
    {
        if same_text(f.results[i].id.as_str(), id) && same_text(
            f.results[i].overall.as_str(),
            "pass",
        ) {
            assert(f.results@[i as int].id@ == id@);
            return true;
        }
    }
    false
}

fn within(f: &VerdictsFile, g: &VerdictsFile) -> (b: bool)
    ensures
        b == (forall|id: Seq<char>| #[trigger] speaks_of(*f, id) ==> speaks_of(*g, id)),
{
    for i in 0..f.results.len()
        invariant
            forall|j: int| 0 <= j < i ==> speaks_of(*g, (#[trigger] f.results@[j]).id@),
    {
        if !mentions(g, f.results[i].id.as_str()) {
            assert(speaks_of(*f, f.results@[i as int].id@));
            return false;
        }
    }
    assert forall|id: Seq<char>| #[trigger] speaks_of(*f, id) implies speaks_of(*g, id) by {
        let j = choose|j: int| 0 <= j < f.results@.len() && (#[trigger] f.results@[j]).id@ == id;
        assert(speaks_of(*g, f.results@[j].id@));
    }
    true
}

fn universes_agree(files: &[VerdictsFile]) -> (b: bool)
    ensures
        b == one_universe(files@),
{
    let n = files.len();
    if n == 0 {
        return true;
    }
    for i in 1..n
        invariant
            n == files@.len(),
            forall|j: int|
                0 <= j < i - 1 ==> same_universe(#[trigger] files@[j], files@[j + 1]),
    {
        if !within(&files[i - 1], &files[i]) || !within(&files[i], &files[i - 1]) {
            assert(!same_universe(files@[i - 1], files@[i - 1 + 1]));
            return false;
        }
        assert(same_universe(files@[i - 1], files@[i as int]));
    }
    true
}

fn count_failures(files: &[VerdictsFile], id: &str) -> (n: usize)
    ensures
        n == failures(files@, id@),
{
    let mut n: usize = 0;
    for i in 0..files.len()
        invariant
            n == failures(files@.take(i as int), id@),
            n <= i,
    {
        assert(files@.take(i + 1).drop_last() =~= files@.take(i as int));
        if !passed_in(&files[i], id) {
            n += 1;
        }
    }
    assert(files@.take(files@.len() as int) =~= files@);
    n
}

// ---------------------------------------------------------------------------
// Entries
// ---------------------------------------------------------------------------
/// Module of a block's icons.
pub open spec fn module_text(block: Block) -> Seq<char> {
    match block {
        Block::Ascii => "ascii"@,
        Block::Arrows => "arrows"@,
        Block::BoxDrawing => "box_drawing"@,
        Block::BlockElements => "block_elements"@,
        Block::GeometricShapes => "geometric_shapes"@,
        Block::MiscSymbols => "misc_symbols"@,
        Block::Dingbats => "dingbats"@,
        Block::Braille => "braille"@,
    }
}

/// Module of a block's icons.
pub fn module_name(block: Block) -> (s: &'static str)
    ensures
        s@ == module_text(block),
{
    match block {
        Block::Ascii => "ascii",
        Block::Arrows => "arrows",
        Block::BoxDrawing => "box_drawing",
        Block::BlockElements => "block_elements",
        Block::GeometricShapes => "geometric_shapes",
        Block::MiscSymbols => "misc_symbols",
        Block::Dingbats => "dingbats",
        Block::Braille => "braille",
    }
}

/// The entry is the one of the candidate.
pub open spec fn is_entry_for(e: Entry, c: Candidate, names: Map<u32, String>) -> bool {
    &&& e.id@ == c.id@
    &&& e.codepoint == c.codepoint
    &&& e.module@ == module_text(c.block)
    &&& e.const_name@ == upper(c.id@)
    &&& e.glyph as u32 == c.codepoint
    &&& e.fallback@ == c.fallback@
    &&& e.unicode_name@ == name_of(names, c.codepoint)
}

/// The manifest entry of a candidate.
pub fn entry_for(c: &Candidate, names: &HashMap<u32, String>) -> (e: Entry)
    requires
        is_scalar(c.codepoint as int),
    ensures
        is_entry_for(e, *c, names@),
{
    Entry {
        id: c.id.clone(),
        codepoint: c.codepoint,
        module: module_name(c.block),
        const_name: c.const_name(),
        glyph: c.glyph(),
        fallback: c.fallback,
        unicode_name: crate::chart::find_name(names, c.codepoint),
    }
}

/// The entries are those of the kept candidates, in order.
pub open spec fn are_entries(
    v: Seq<Entry>,
    catalog: Seq<Candidate>,
    keep: spec_fn(Seq<char>) -> bool,
    names: Map<u32, String>,
) -> bool
    decreases catalog.len(),
{
    if catalog.len() == 0 {
        v.len() == 0
    } else if keep(catalog.last().id@) {
        &&& v.len() > 0
        &&& is_entry_for(v.last(), catalog.last(), names)
        &&& are_entries(v.drop_last(), catalog.drop_last(), keep, names)
    } else {
        are_entries(v, catalog.drop_last(), keep, names)
    }
}

/// The set is a manifest: the entries of the kept candidates of the catalog.
pub open spec fn is_manifest(
    v: Seq<Entry>,
    keep: spec_fn(Seq<char>) -> bool,
    names: Map<u32, String>,
) -> bool {
    exists|catalog: Seq<Candidate>| #[trigger]
        is_registry(catalog) && are_entries(v, catalog, keep, names)
}

/// Bootstrap: every candidate of the catalog, none of them verified.
pub fn generate_from_catalog(names: &HashMap<u32, String>) -> (out: Vec<Entry>)
    ensures
        is_manifest(out@, |id: Seq<char>| true, names@),
{
    let catalog = candidates();
    let ghost keep = |id: Seq<char>| true;
    let mut out: Vec<Entry> = Vec::new();
    for i in 0..catalog.len()
        invariant
            is_registry(catalog@),
            keep == (|id: Seq<char>| true),
            are_entries(out@, catalog@.take(i as int), keep, names@),
    {
        proof {
            assert(catalog@.take(i + 1).drop_last() =~= catalog@.take(i as int));
            assert(is_entry(catalog@[i as int], catalog@[i as int].codepoint as int));
        }
        let ghost before = out@;
        out.push(entry_for(&catalog[i], names));
        assert(out@.drop_last() =~= before);
    }
    assert(catalog@.take(catalog@.len() as int) =~= catalog@);
    out
}

/// The shipped set.
pub open spec fn shipped(files: Seq<VerdictsFile>, previous: Seq<String>) -> spec_fn(
    Seq<char>,
) -> bool {
    |id: Seq<char>| survives(files, previous, id)
}

/// Intersects real verdicts. `previous` lists the ids shipped so far.
///
/// Rejecting degraded and unanalyzed runs is defense in depth: failing fast in
/// the harness makes both unreachable in healthy pipelines. Universes must be
/// identical across platforms, which guards against catalog skew.
pub fn generate_from_inputs(
    files: &[VerdictsFile],
    previous: &[String],
    names: &HashMap<u32, String>,
) -> (out: Result<Vec<Entry>, ManifestError>)
    ensures
        match out {
            Ok(v) => files_fault(files@, 0) is None && one_universe(files@) && is_manifest(
                v@,
                shipped(files@, previous@),
                names@,
            ) && ships_exactly_the_earned(v@, files@, previous@),
            Err(e) => if files_fault(files@, 0) is Some {
                files_fault(files@, 0) == Some(e@)
            } else {
                !one_universe(files@) && e@ == ManifestFault::UniverseSkew
            },
        },
{
    for i in 0..files.len()
        invariant
            files_fault(files@, 0) == files_fault(files@, i as int),
    {
        match check_file(&files[i], i) {
            Err(e) => {
                return Err(e);
            },
            Ok(()) => {},
        }
    }
    if !universes_agree(files) {
        return Err(ManifestError::UniverseSkew);
    }
    let catalog = candidates();
    let ghost keep = shipped(files@, previous@);
    let mut out: Vec<Entry> = Vec::new();
    for i in 0..catalog.len()
        invariant
            is_registry(catalog@),
            keep == shipped(files@, previous@),
            are_entries(out@, catalog@.take(i as int), keep, names@),
    {
        let c = &catalog[i];
        proof {
            assert(catalog@.take(i + 1).drop_last() =~= catalog@.take(i as int));
            assert(is_entry(catalog@[i as int], catalog@[i as int].codepoint as int));
        }
        let failed = count_failures(files, c.id.as_str());
        if files.len() > 0 && (failed == 0 || (failed < 2 && is_listed(
            previous,
            c.id.as_str(),
        ))) {
            let ghost before = out@;
            out.push(entry_for(c, names));
            assert(out@.drop_last() =~= before);
        }
    }
    assert(catalog@.take(catalog@.len() as int) =~= catalog@);
    proof {
        the_set_ships_exactly_the_earned(out@, files@, previous@, names@);
    }
    Ok(out)
}

// ---------------------------------------------------------------------------
// Laws
// ---------------------------------------------------------------------------
/// The AND gate: without a history, exactly the candidates that passed on every
/// platform are shipped.
pub proof fn and_gate(files: Seq<VerdictsFile>, previous: Seq<String>, id: Seq<char>)
    requires
        files.len() > 0,
        !listed(previous, id),
    ensures
        survives(files, previous, id) <==> forall|i: int|
            0 <= i < files.len() ==> passes_in(#[trigger] files[i], id),
{
    lemma_failures(files, id);
}

/// Exit hysteresis: a shipped icon is dropped only if it fails on two platforms
/// or more in a single run.
pub proof fn exit_hysteresis(files: Seq<VerdictsFile>, previous: Seq<String>, id: Seq<char>)
    requires
        files.len() > 0,
        listed(previous, id),
    ensures
        survives(files, previous, id) <==> failures(files, id) < 2,
{
}

proof fn lemma_failures(files: Seq<VerdictsFile>, id: Seq<char>)
    ensures
        failures(files, id) <= files.len(),
        failures(files, id) == 0 <==> forall|i: int|
            0 <= i < files.len() ==> passes_in(#[trigger] files[i], id),
    decreases files.len(),
{
    if files.len() > 0 {
        let init = files.drop_last();
        lemma_failures(init, id);
        if failures(files, id) == 0 {
            assert forall|i: int| 0 <= i < files.len() implies passes_in(#[trigger] files[i], id) by {
                if i < init.len() {
                    assert(passes_in(init[i], id));
                }
            }
        } else if forall|i: int| 0 <= i < files.len() ==> passes_in(#[trigger] files[i], id) {
            assert(passes_in(files[files.len() - 1], id));
            assert forall|i: int| 0 <= i < init.len() implies passes_in(#[trigger] init[i], id) by {
                assert(passes_in(files[i], id));
            }
        }
    }
}

/// A manifest is sorted by codepoint without repetitions, and every icon of it
/// is a kept candidate of the catalog.
pub proof fn manifests_are_sorted_and_unique(
    v: Seq<Entry>,
    keep: spec_fn(Seq<char>) -> bool,
    names: Map<u32, String>,
)
    requires
        is_manifest(v, keep, names),
    ensures
        forall|i: int, j: int|
            0 <= i < j < v.len() ==> (#[trigger] v[i]).codepoint < (#[trigger] v[j]).codepoint,
        forall|i: int|
            0 <= i < v.len() ==> keep((#[trigger] v[i]).id@) && crate::catalog::block_of(
                v[i].codepoint as int,
            ) is Some,
{
    let catalog = choose|catalog: Seq<Candidate>| #[trigger]
        is_registry(catalog) && are_entries(v, catalog, keep, names);
    lemma_entries(v, catalog, keep, names);
}

proof fn lemma_entries(
    v: Seq<Entry>,
    catalog: Seq<Candidate>,
    keep: spec_fn(Seq<char>) -> bool,
    names: Map<u32, String>,
)
    requires
        are_entries(v, catalog, keep, names),
        forall|i: int|
            0 <= i < catalog.len() ==> is_entry(
                #[trigger] catalog[i],
                catalog[i].codepoint as int,
            ),
        forall|i: int, j: int|
            0 <= i < j < catalog.len() ==> (#[trigger] catalog[i]).codepoint < (
            #[trigger] catalog[j]).codepoint,
    ensures
        forall|i: int, j: int|
            0 <= i < j < v.len() ==> (#[trigger] v[i]).codepoint < (#[trigger] v[j]).codepoint,
        forall|i: int|
            0 <= i < v.len() ==> keep((#[trigger] v[i]).id@) && crate::catalog::block_of(
                v[i].codepoint as int,
            ) is Some,
        v.len() > 0 ==> catalog.len() > 0 && v.last().codepoint <= catalog.last().codepoint,
        forall|i: int|
            0 <= i < v.len() ==> catalog.len() > 0 && (#[trigger] v[i]).codepoint
                <= catalog.last().codepoint,
    decreases catalog.len(),
{
    if catalog.len() > 0 {
        let init = catalog.drop_last();
        let last = catalog[catalog.len() - 1];
        assert(is_entry(last, last.codepoint as int));
        assert forall|i: int| 0 <= i < init.len() implies is_entry(
            #[trigger] init[i],
            init[i].codepoint as int,
        ) by {
            assert(is_entry(catalog[i], catalog[i].codepoint as int));
        }
        assert forall|i: int, j: int| 0 <= i < j < init.len() implies (#[trigger] init[i]).codepoint
            < (#[trigger] init[j]).codepoint by {
            assert(catalog[i].codepoint < catalog[j].codepoint);
        }
        let w = if keep(last.id@) {
            v.drop_last()
        } else {
            v
        };
        lemma_entries(w, init, keep, names);
        if init.len() > 0 {
            assert(catalog[init.len() - 1].codepoint < catalog[catalog.len() - 1].codepoint);
        }
        assert forall|i: int| 0 <= i < v.len() implies keep((#[trigger] v[i]).id@)
            && crate::catalog::block_of(v[i].codepoint as int) is Some && v[i].codepoint
            <= catalog.last().codepoint by {
            if i < w.len() {
                assert(w[i] == v[i]);
            }
        }
        assert forall|i: int, j: int| 0 <= i < j < v.len() implies (#[trigger] v[i]).codepoint < (
        #[trigger] v[j]).codepoint by {
            assert(w[i] == v[i]);
            if j < w.len() {
                assert(w[j] == v[j]);
            }
        }
    }
}

/// What a generated table promises its readers: codepoints and glyphs ascend
/// strictly, so that no glyph occurs twice; every icon outside printable ASCII
/// has an ASCII substitute; and with every candidate kept it is not empty.
pub proof fn tables_are_ordered_and_have_fallbacks(
    v: Seq<Entry>,
    keep: spec_fn(Seq<char>) -> bool,
    names: Map<u32, String>,
)
    requires
        is_manifest(v, keep, names),
    ensures
        forall|i: int, j: int|
            0 <= i < j < v.len() ==> (#[trigger] v[i]).codepoint < (#[trigger] v[j]).codepoint
                && (v[i].glyph as u32) < v[j].glyph as u32,
        forall|i: int|
            0 <= i < v.len() ==> (#[trigger] v[i]).glyph as u32 == v[i].codepoint && (
            v[i].fallback@.len() > 0 <==> !(0x21 <= v[i].codepoint <= 0x7E)),
        (forall|id: Seq<char>| #[trigger] keep(id)) ==> v.len() > 0,
{
    let catalog = choose|catalog: Seq<Candidate>| #[trigger]
        is_registry(catalog) && are_entries(v, catalog, keep, names);
    lemma_entries(v, catalog, keep, names);
    lemma_origins(v, catalog, keep, names);
    assert forall|i: int| 0 <= i < v.len() implies (#[trigger] v[i]).glyph as u32 == v[i].codepoint
        && (v[i].fallback@.len() > 0 <==> !(0x21 <= v[i].codepoint <= 0x7E)) by {
        assert(of_candidate(v[i], names));
        let c = choose|c: Candidate| #[trigger]
            is_entry_for(v[i], c, names) && is_entry(c, c.codepoint as int);
        crate::catalog::fallbacks_are_plain_ascii(c);
    }
    assert(crate::catalog::block_of(0x21) is Some);
    assert(crate::catalog::has_codepoint(catalog, 0x21));
}

/// The entry is that of some candidate of the catalog.
pub open spec fn of_candidate(e: Entry, names: Map<u32, String>) -> bool {
    exists|c: Candidate| #[trigger] is_entry_for(e, c, names) && is_entry(c, c.codepoint as int)
}

/// Every entry is that of a candidate; with every candidate kept there are as
/// many.
proof fn lemma_origins(
    v: Seq<Entry>,
    catalog: Seq<Candidate>,
    keep: spec_fn(Seq<char>) -> bool,
    names: Map<u32, String>,
)
    requires
        are_entries(v, catalog, keep, names),
        forall|i: int|
            0 <= i < catalog.len() ==> is_entry(
                #[trigger] catalog[i],
                catalog[i].codepoint as int,
            ),
    ensures
        forall|i: int|
            0 <= i < v.len() ==> of_candidate(#[trigger] v[i], names),
        (forall|id: Seq<char>| #[trigger] keep(id)) ==> v.len() == catalog.len(),
    decreases catalog.len(),
{
    if catalog.len() > 0 {
        let init = catalog.drop_last();
        let last = catalog[catalog.len() - 1];
        assert(is_entry(last, last.codepoint as int));
        assert forall|i: int| 0 <= i < init.len() implies is_entry(
            #[trigger] init[i],
            init[i].codepoint as int,
        ) by {
            assert(is_entry(catalog[i], catalog[i].codepoint as int));
        }
        let w = if keep(last.id@) {
            v.drop_last()
        } else {
            v
        };
        lemma_origins(w, init, keep, names);
        assert forall|i: int| 0 <= i < v.len() implies of_candidate(#[trigger] v[i], names) by {
            if i < w.len() {
                assert(w[i] == v[i]);
            } else {
                assert(is_entry_for(v[i], last, names));
            }
        }
    }
}

/// Every entry of a manifest is that of a candidate.
pub proof fn entries_come_from_candidates(
    v: Seq<Entry>,
    keep: spec_fn(Seq<char>) -> bool,
    names: Map<u32, String>,
)
    requires
        is_manifest(v, keep, names),
    ensures
        forall|i: int| 0 <= i < v.len() ==> of_candidate(#[trigger] v[i], names),
{
    let catalog = choose|catalog: Seq<Candidate>| #[trigger]
        is_registry(catalog) && are_entries(v, catalog, keep, names);
    lemma_origins(v, catalog, keep, names);
}

/// The set has an entry of the codepoint.
pub open spec fn has_entry(v: Seq<Entry>, cp: int) -> bool {
    exists|i: int| 0 <= i < v.len() && (#[trigger] v[i]).codepoint == cp
}

/// Every kept candidate is in the manifest.
pub proof fn kept_candidates_are_listed(
    v: Seq<Entry>,
    keep: spec_fn(Seq<char>) -> bool,
    names: Map<u32, String>,
    cp: int,
)
    requires
        is_manifest(v, keep, names),
        crate::catalog::block_of(cp) is Some,
        keep(crate::catalog::id_text(crate::catalog::block_of(cp).unwrap(), cp)),
    ensures
        has_entry(v, cp),
{
    let catalog = choose|catalog: Seq<Candidate>| #[trigger]
        is_registry(catalog) && are_entries(v, catalog, keep, names);
    assert(crate::catalog::has_codepoint(catalog, cp));
    let k = choose|k: int| 0 <= k < catalog.len() && (#[trigger] catalog[k]).codepoint == cp;
    assert(is_entry(catalog[k], cp));
    lemma_kept(v, catalog, keep, names, k);
}

proof fn lemma_kept(
    v: Seq<Entry>,
    catalog: Seq<Candidate>,
    keep: spec_fn(Seq<char>) -> bool,
    names: Map<u32, String>,
    k: int,
)
    requires
        are_entries(v, catalog, keep, names),
        0 <= k < catalog.len(),
        keep(catalog[k].id@),
    ensures
        has_entry(v, catalog[k].codepoint as int),
    decreases catalog.len(),
{
    let last = catalog.last();
    let w = if keep(last.id@) {
        v.drop_last()
    } else {
        v
    };
    if k == catalog.len() - 1 {
        assert(v[v.len() - 1].codepoint == last.codepoint);
    } else {
        lemma_kept(w, catalog.drop_last(), keep, names, k);
        let i = choose|i: int|
            0 <= i < w.len() && (#[trigger] w[i]).codepoint == catalog[k].codepoint;
        assert(v[i].codepoint == catalog[k].codepoint);
    }
}

/// Scraped ids are listed once each.
pub proof fn scraped_ids_are_distinct(lines: Seq<Seq<char>>, i: int, j: int)
    requires
        0 <= i < j < scraped(lines).len(),
    ensures
        scraped(lines)[i] != scraped(lines)[j],
    decreases lines.len(),
{
    if lines.len() > 0 {
        let init = scraped(lines.drop_last());
        if j < init.len() {
            scraped_ids_are_distinct(lines.drop_last(), i, j);
        } else {
            assert(init[i] == scraped(lines)[i]);
        }
    }
}

// ---------------------------------------------------------------------------
// What the aggregation decides
// ---------------------------------------------------------------------------
/// Some result of the input says that the candidate passed.
pub open spec fn says_pass(f: VerdictsFile, id: Seq<char>) -> bool {
    exists|k: int|
        #![trigger f.results@[k]]
        0 <= k < f.results@.len() && f.results@[k].id@ == id && f.results@[k].overall@ == "pass"@
}

/// The candidate has earned its place: it passed in every input, or it is one of
/// the ids shipped so far and no two different inputs fail it.
pub open spec fn earns_its_place(
    files: Seq<VerdictsFile>,
    previous: Seq<String>,
    id: Seq<char>,
) -> bool {
    &&& files.len() > 0
    &&& {
        ||| forall|i: int| 0 <= i < files.len() ==> says_pass(#[trigger] files[i], id)
        ||| (exists|p: int| 0 <= p < previous.len() && (#[trigger] previous[p])@ == id) && !(exists|
            i: int,
            j: int,
        |
            0 <= i < j < files.len() && !says_pass(#[trigger] files[i], id) && !says_pass(
                #[trigger] files[j],
                id,
            ))
    }
}

/// The set holds exactly the candidates of the catalog that earned their place,
/// each once, in ascending order.
pub open spec fn ships_exactly_the_earned(
    v: Seq<Entry>,
    files: Seq<VerdictsFile>,
    previous: Seq<String>,
) -> bool {
    &&& forall|i: int|
        0 <= i < v.len() ==> earns_its_place(files, previous, (#[trigger] v[i]).id@)
            && (crate::catalog::block_of(v[i].codepoint as int) matches Some(b) && v[i].id@
            == crate::catalog::id_text(b, v[i].codepoint as int))
    &&& forall|cp: int|
        #![trigger crate::catalog::block_of(cp)]
        (crate::catalog::block_of(cp) matches Some(b) && earns_its_place(
            files,
            previous,
            crate::catalog::id_text(b, cp),
        )) ==> exists|i: int| 0 <= i < v.len() && (#[trigger] v[i]).codepoint == cp
    &&& forall|i: int, j: int|
        0 <= i < j < v.len() ==> (#[trigger] v[i]).codepoint < (#[trigger] v[j]).codepoint
}

proof fn lemma_says_pass(f: VerdictsFile, id: Seq<char>)
    ensures
        says_pass(f, id) == passes_in(f, id),
{
    if says_pass(f, id) {
        let k = choose|k: int|
            #![trigger f.results@[k]]
            0 <= k < f.results@.len() && f.results@[k].id@ == id && f.results@[k].overall@
                == "pass"@;
        assert(f.results@[k].id@ == id);
    }
    if passes_in(f, id) {
        let k = choose|k: int|
            0 <= k < f.results@.len() && (#[trigger] f.results@[k]).id@ == id
                && f.results@[k].overall@ == "pass"@;
        assert(f.results@[k].id@ == id);
    }
}

/// Fewer than two failures means that no two different inputs fail the candidate.
proof fn lemma_two_failures(files: Seq<VerdictsFile>, id: Seq<char>)
    ensures
        failures(files, id) >= 1 <==> exists|i: int|
            0 <= i < files.len() && !says_pass(#[trigger] files[i], id),
        failures(files, id) >= 2 <==> exists|i: int, j: int|
            0 <= i < j < files.len() && !says_pass(#[trigger] files[i], id) && !says_pass(
                #[trigger] files[j],
                id,
            ),
    decreases files.len(),
{
    if files.len() > 0 {
        let init = files.drop_last();
        let n = init.len() as int;
        lemma_two_failures(init, id);
        lemma_says_pass(files.last(), id);
        assert(files[n] == files.last());
        if failures(init, id) >= 1 {
            let i = choose|i: int| 0 <= i < init.len() && !says_pass(#[trigger] init[i], id);
            assert(files[i] == init[i]);
            assert(!says_pass(files[i], id));
            if !says_pass(files[n], id) {
                assert(0 <= i < n < files.len() && !says_pass(files[i], id) && !says_pass(
                    files[n],
                    id,
                ));
            }
        }
        if failures(init, id) >= 2 {
            let (i, j) = choose|i: int, j: int|
                0 <= i < j < init.len() && !says_pass(#[trigger] init[i], id) && !says_pass(
                    #[trigger] init[j],
                    id,
                );
            assert(files[i] == init[i] && files[j] == init[j]);
            assert(!says_pass(files[i], id) && !says_pass(files[j], id));
        }
        if exists|i: int| 0 <= i < files.len() && !says_pass(#[trigger] files[i], id) {
            let i = choose|i: int| 0 <= i < files.len() && !says_pass(#[trigger] files[i], id);
            if i < n {
                assert(!says_pass(init[i], id));
            }
        }
        if exists|i: int, j: int|
            0 <= i < j < files.len() && !says_pass(#[trigger] files[i], id) && !says_pass(
                #[trigger] files[j],
                id,
            ) {
            let (i, j) = choose|i: int, j: int|
                0 <= i < j < files.len() && !says_pass(#[trigger] files[i], id) && !says_pass(
                    #[trigger] files[j],
                    id,
                );
            assert(!says_pass(init[i], id));
            if j < n {
                assert(!says_pass(init[j], id));
            }
        }
    }
}

/// What is shipped, input by input: exactly the candidates that passed in every
/// input, and those shipped before that no two different inputs fail.
pub proof fn the_set_ships_exactly_the_earned(
    v: Seq<Entry>,
    files: Seq<VerdictsFile>,
    previous: Seq<String>,
    names: Map<u32, String>,
)
    requires
        is_manifest(v, shipped(files, previous), names),
    ensures
        ships_exactly_the_earned(v, files, previous),
{
    let keep = shipped(files, previous);
    assert forall|id: Seq<char>| #[trigger] keep(id) == earns_its_place(files, previous, id) by {
        lemma_two_failures(files, id);
        assert(listed(previous, id) == exists|p: int|
            0 <= p < previous.len() && (#[trigger] previous[p])@ == id);
    }
    manifests_are_sorted_and_unique(v, keep, names);
    entries_come_from_candidates(v, keep, names);
    assert forall|i: int| 0 <= i < v.len() implies earns_its_place(
        files,
        previous,
        (#[trigger] v[i]).id@,
    ) && (crate::catalog::block_of(v[i].codepoint as int) matches Some(b) && v[i].id@
        == crate::catalog::id_text(b, v[i].codepoint as int)) by {
        assert(keep(v[i].id@));
        assert(of_candidate(v[i], names));
        let c = choose|c: Candidate| #[trigger]
            is_entry_for(v[i], c, names) && is_entry(c, c.codepoint as int);
    }
    assert forall|cp: int|
        #![trigger crate::catalog::block_of(cp)]
        (crate::catalog::block_of(cp) matches Some(b) && earns_its_place(
            files,
            previous,
            crate::catalog::id_text(b, cp),
        )) implies exists|i: int| 0 <= i < v.len() && (#[trigger] v[i]).codepoint == cp by {
        let b = crate::catalog::block_of(cp).unwrap();
        assert(keep(crate::catalog::id_text(b, cp)));
        kept_candidates_are_listed(v, keep, names, cp);
    }
}

/// The text begins with the letters of the word, in either case.
pub open spec fn begins_like(s: Seq<char>, word: Seq<char>) -> bool {
    &&& s.len() >= word.len()
    &&& forall|i: int|
        0 <= i < word.len() ==> #[trigger] s[i] == word[i] || s[i] as u32 + 32 == word[i] as u32
}

proof fn lemma_begins_like(s: Seq<char>, word: Seq<char>)
    requires
        forall|i: int| 0 <= i < word.len() ==> 'a' <= #[trigger] word[i] <= 'z',
    ensures
        begins_with(lower(s), word) == begins_like(s, word),
{
    let l = lower(s);
    if begins_with(l, word) {
        assert forall|i: int| 0 <= i < word.len() implies #[trigger] s[i] == word[i] || s[i] as u32
            + 32 == word[i] as u32 by {
            assert(l.subrange(0, word.len() as int)[i] == word[i]);
            assert('a' <= word[i] <= 'z');
        }
    }
    if begins_like(s, word) {
        assert forall|i: int| 0 <= i < word.len() implies l.subrange(0, word.len() as int)[i]
            == word[i] by {
            assert(s[i] == word[i] || s[i] as u32 + 32 == word[i] as u32);
            assert('a' <= word[i] <= 'z');
        }
        assert(l.subrange(0, word.len() as int) =~= word);
    }
}

/// A host is accepted exactly if it is one of those sanctioned for the platform
/// that the label begins with, in either case; a label of no known platform has
/// no policy. The refusal names the platform and the host.
pub proof fn hosts_are_sanctioned_by_platform(platform: Seq<char>, host: Seq<char>)
    ensures
        host_fault(platform, host) is None <==> {
            &&& begins_like(platform, "windows"@) ==> host == "wt"@ || host == "conhost"@
            &&& begins_like(platform, "linux"@) ==> host == "xterm"@ || host == "gnome-terminal"@
            &&& begins_like(platform, "macos"@) ==> host == "terminal-app"@
        },
        host_fault(platform, host) matches Some(text) ==> crate::text::contains(text, platform)
            && crate::text::contains(text, host),
{
    reveal_strlit("windows");
    reveal_strlit("linux");
    reveal_strlit("macos");
    lemma_begins_like(platform, "windows"@);
    lemma_begins_like(platform, "linux"@);
    lemma_begins_like(platform, "macos"@);
    if platform.len() > 0 {
        let c = platform[0];
        if begins_like(platform, "windows"@) {
            assert(c == 'w' || c as u32 + 32 == 'w' as u32);
        }
        if begins_like(platform, "linux"@) {
            assert(c == 'l' || c as u32 + 32 == 'l' as u32);
        }
        if begins_like(platform, "macos"@) {
            assert(c == 'm' || c as u32 + 32 == 'm' as u32);
        }
    }
    if host_fault(platform, host) is Some {
        let text = host_fault(platform, host).unwrap();
        let a = "platform '"@.len() as int;
        let b = a + platform.len() + "': host '"@.len();
        assert(text.subrange(a, a + platform.len()) =~= platform);
        assert(crate::text::occurs_at(text, platform, a));
        assert(text.subrange(b, b + host.len()) =~= host);
        assert(crate::text::occurs_at(text, host, b));
    }
}

/// The input can be aggregated: its host is sanctioned, Pass 1 ran, and the
/// capture could be analyzed.
pub open spec fn is_clean(f: VerdictsFile) -> bool {
    host_fault(f.platform@, f.host@) is None && f.pass1_support && f.structural_fail is None
}

/// Aggregation goes ahead exactly if every input is clean. Otherwise the first
/// input that is not is named, with its host before a missing Pass 1 and that
/// before a failed capture.
pub proof fn the_first_unclean_input_is_named(files: Seq<VerdictsFile>)
    ensures
        files_fault(files, 0) is None <==> forall|i: int|
            0 <= i < files.len() ==> is_clean(#[trigger] files[i]),
        files_fault(files, 0) matches Some(e) ==> exists|i: int|
            #![trigger files[i]]
            {
                &&& 0 <= i < files.len()
                &&& !is_clean(files[i])
                &&& forall|j: int| 0 <= j < i ==> is_clean(#[trigger] files[j])
                &&& e == (if host_fault(files[i].platform@, files[i].host@) is Some {
                    ManifestFault::Host(
                        i,
                        host_fault(files[i].platform@, files[i].host@).unwrap(),
                    )
                } else if !files[i].pass1_support {
                    ManifestFault::Degraded(i)
                } else {
                    ManifestFault::Unanalyzed(i, files[i].structural_fail.unwrap()@)
                })
            },
{
    lemma_first_unclean(files, 0);
}

proof fn lemma_first_unclean(files: Seq<VerdictsFile>, from: int)
    requires
        0 <= from <= files.len(),
        forall|j: int| 0 <= j < from ==> is_clean(#[trigger] files[j]),
    ensures
        files_fault(files, from) is None <==> forall|i: int|
            0 <= i < files.len() ==> is_clean(#[trigger] files[i]),
        files_fault(files, from) matches Some(e) ==> exists|i: int|
            #![trigger files[i]]
            {
                &&& 0 <= i < files.len()
                &&& !is_clean(files[i])
                &&& forall|j: int| 0 <= j < i ==> is_clean(#[trigger] files[j])
                &&& e == (if host_fault(files[i].platform@, files[i].host@) is Some {
                    ManifestFault::Host(
                        i,
                        host_fault(files[i].platform@, files[i].host@).unwrap(),
                    )
                } else if !files[i].pass1_support {
                    ManifestFault::Degraded(i)
                } else {
                    ManifestFault::Unanalyzed(i, files[i].structural_fail.unwrap()@)
                })
            },
    decreases files.len() - from,
{
    if from < files.len() {
        if file_fault(files[from], from) is Some {
            assert(!is_clean(files[from]));
        } else {
            assert(is_clean(files[from]));
            lemma_first_unclean(files, from + 1);
        }
    }
}

/// Some result of the input is that of the id.
pub open spec fn has_result(f: VerdictsFile, id: Seq<char>) -> bool {
    exists|l: int| 0 <= l < f.results@.len() && (#[trigger] f.results@[l]).id@ == id
}

/// Inputs of one universe speak of the same candidates, any two of them: an id
/// that one has a result for, every other one has a result for too.
pub proof fn one_universe_means_the_same_ids(files: Seq<VerdictsFile>)
    ensures
        one_universe(files) <==> forall|i: int, j: int, k: int|
            #![trigger files[i].results@[k], files[j]]
            0 <= i < files.len() && 0 <= j < files.len() && 0 <= k < files[i].results@.len()
                ==> has_result(files[j], files[i].results@[k].id@),
{
    if one_universe(files) {
        assert forall|i: int, j: int, k: int|
            #![trigger files[i].results@[k], files[j]]
            0 <= i < files.len() && 0 <= j < files.len() && 0 <= k
                < files[i].results@.len() implies has_result(files[j], files[i].results@[k].id@) by {
            let id = files[i].results@[k].id@;
            assert(speaks_of(files[i], id));
            lemma_same_everywhere(files, i, j, id);
            assert(speaks_of(files[j], id));
        }
    } else {
        let i = choose|i: int|
            0 <= i < files.len() - 1 && !same_universe(#[trigger] files[i], files[i + 1]);
        let id = choose|id: Seq<char>| #[trigger]
            speaks_of(files[i], id) != speaks_of(files[i + 1], id);
        if speaks_of(files[i], id) {
            let k = choose|k: int|
                0 <= k < files[i].results@.len() && (#[trigger] files[i].results@[k]).id@ == id;
            let f = files[i + 1];
            assert(files[i].results@[k].id@ == id && !has_result(f, id));
        } else {
            let k = choose|k: int|
                0 <= k < files[i + 1].results@.len() && (#[trigger] files[i + 1].results@[k]).id@
                    == id;
            let f = files[i];
            assert(files[i + 1].results@[k].id@ == id && !has_result(f, id));
        }
    }
}

proof fn lemma_same_everywhere(files: Seq<VerdictsFile>, i: int, j: int, id: Seq<char>)
    requires
        one_universe(files),
        0 <= i < files.len(),
        0 <= j < files.len(),
    ensures
        speaks_of(files[i], id) == speaks_of(files[j], id),
    decreases (if i < j {
        j - i
    } else {
        i - j
    }),
{
    if i < j {
        assert(same_universe(files[i], files[i + 1]));
        lemma_same_everywhere(files, i + 1, j, id);
    } else if j < i {
        assert(same_universe(files[i - 1], files[i]));
        lemma_same_everywhere(files, i - 1, j, id);
    }
}

/// The line names the id: between the first `id: "` of the line and the next
/// quote.
pub open spec fn line_names(line: Seq<char>, id: Seq<char>) -> bool {
    exists|at: int|
        #![trigger line.subrange(at, at + 5 + id.len() + 1)]
        {
            &&& 0 <= at
            &&& at + 5 + id.len() + 1 <= line.len()
            &&& line.subrange(at, at + 5 + id.len() + 1) == "id: \""@ + id + "\""@
            &&& !id.contains('"')
            &&& forall|k: int|
                0 <= k < at ==> #[trigger] line.subrange(k, k + 5) != "id: \""@
        }
}

/// Scraping finds exactly the ids that the lines name.
pub proof fn scraping_finds_exactly_the_named_ids(lines: Seq<Seq<char>>, id: Seq<char>)
    ensures
        scraped(lines).contains(id) <==> exists|k: int|
            0 <= k < lines.len() && line_names(#[trigger] lines[k], id),
    decreases lines.len(),
{
    if lines.len() > 0 {
        let init = lines.drop_last();
        let n = init.len() as int;
        let old = scraped(init);
        let all = scraped(lines);
        scraping_finds_exactly_the_named_ids(init, id);
        lemma_line_names(lines.last(), id);
        assert(lines[n] == lines.last());
        if old.contains(id) {
            let i = choose|i: int| 0 <= i < old.len() && old[i] == id;
            assert(all[i] == id);
            let k = choose|k: int| 0 <= k < init.len() && line_names(#[trigger] init[k], id);
            assert(line_names(lines[k], id));
        }
        if line_id(lines.last()) == Some(id) && !old.contains(id) {
            assert(all[all.len() - 1] == id);
        }
        if all.contains(id) && !old.contains(id) {
            let i = choose|i: int| 0 <= i < all.len() && all[i] == id;
            if i < old.len() {
                assert(old[i] == id);
            }
            assert(line_names(lines[n], id));
        }
        if exists|k: int| 0 <= k < lines.len() && line_names(#[trigger] lines[k], id) {
            let k = choose|k: int| 0 <= k < lines.len() && line_names(#[trigger] lines[k], id);
            if k < n {
                assert(line_names(init[k], id));
            }
        }
    }
}

proof fn lemma_line_names(line: Seq<char>, id: Seq<char>)
    ensures
        line_names(line, id) == (line_id(line) == Some(id)),
{
    reveal_strlit("id: \"");
    reveal_strlit("\"");
    let mark = id_mark();
    let at = position(line, mark, 0);
    let from = at + 5;
    lemma_position(line, mark, 0);
    lemma_index_from(line, '"', from);
    let end = index_from(line, '"', from);
    if line_id(line) == Some(id) {
        assert(line.subrange(at, at + 5) == mark);
        assert(line.subrange(at, at + 5 + id.len() + 1) =~= mark + id + "\""@) by {
            let s = line.subrange(at, at + 5 + id.len() + 1);
            assert forall|i: int| 0 <= i < s.len() implies s[i] == (mark + id + "\""@)[i] by {
                if i < 5 {
                    assert(line.subrange(at, at + 5)[i] == mark[i]);
                } else if i < 5 + id.len() {
                    assert(line.subrange(from, end)[i - 5] == id[i - 5]);
                }
            }
        }
        assert(!id.contains('"')) by {
            if id.contains('"') {
                let i = choose|i: int| 0 <= i < id.len() && id[i] == '"';
                assert(line[from + i] == '"');
            }
        }
        assert forall|k: int| 0 <= k < at implies #[trigger] line.subrange(k, k + 5) != mark by {
            assert(!crate::text::occurs_at(line, mark, k));
        }
    }
    if line_names(line, id) {
        let p = choose|p: int|
            #![trigger line.subrange(p, p + 5 + id.len() + 1)]
            {
                &&& 0 <= p
                &&& p + 5 + id.len() + 1 <= line.len()
                &&& line.subrange(p, p + 5 + id.len() + 1) == "id: \""@ + id + "\""@
                &&& !id.contains('"')
                &&& forall|k: int|
                    0 <= k < p ==> #[trigger] line.subrange(k, k + 5) != "id: \""@
            };
        let s = line.subrange(p, p + 5 + id.len() + 1);
        let w = mark + id + "\""@;
        assert forall|i: int| 0 <= i < s.len() implies line[p + i] == w[i] by {
            assert(s[i] == w[i]);
        }
        assert(line.subrange(p, p + 5) =~= mark) by {
            assert forall|i: int| 0 <= i < 5 implies line.subrange(p, p + 5)[i] == mark[i] by {
                assert(line[p + i] == w[i]);
            }
        }
        assert(crate::text::occurs_at(line, mark, p));
        assert(at == p) by {
            if at < p {
                assert(line.subrange(at, at + 5) != mark);
            }
        }
        let q = p + 5 + id.len();
        assert(line[p + (5 + id.len())] == w[5 + id.len() as int]);
        assert forall|i: int| from <= i < q implies line[i] != '"' by {
            assert(line[p + (i - p)] == w[i - p]);
            assert(w[i - p] == id[i - from]);
        }
        assert(end == q);
        assert(line.subrange(from, end) =~= id) by {
            assert forall|i: int| 0 <= i < id.len() implies line.subrange(from, end)[i] == id[i] by {
                assert(line[p + (i + 5)] == w[i + 5]);
            }
        }
    }
}

proof fn lemma_position(s: Seq<char>, pat: Seq<char>, from: int)
    requires
        0 <= from,
    ensures
        position(s, pat, from) == -1 || position(s, pat, from) >= from,
        position(s, pat, from) >= 0 ==> crate::text::occurs_at(s, pat, position(s, pat, from)),
        forall|k: int|
            from <= k && (position(s, pat, from) < 0 || k < position(s, pat, from))
                ==> !#[trigger] crate::text::occurs_at(s, pat, k),
    decreases s.len() + 1 - from,
{
    if from + pat.len() <= s.len() && !crate::text::occurs_at(s, pat, from) {
        lemma_position(s, pat, from + 1);
    }
}

proof fn lemma_index_from(s: Seq<char>, c: char, from: int)
    ensures
        from <= s.len() ==> from <= index_from(s, c, from) <= s.len(),
        from <= index_from(s, c, from) < s.len() ==> s[index_from(s, c, from)] == c,
        forall|k: int| from <= k < index_from(s, c, from) ==> k >= s.len() || s[k] != c,
    decreases s.len() - from,
{
    if from < s.len() && s[from] != c {
        lemma_index_from(s, c, from + 1);
    }
}

/// The line gives the codepoint's name: a hexadecimal field, a semicolon, the
/// name, and then the end of the line or another semicolon.
pub open spec fn line_gives_name(line: Seq<char>, cp: u32, name: Seq<char>) -> bool {
    exists|k: int|
        #![trigger line.take(k)]
        {
            &&& 0 <= k
            &&& k + 1 + name.len() <= line.len()
            &&& !line.take(k).contains(';')
            &&& line[k] == ';'
            &&& parse_u32(line.take(k), 16) == Some(cp)
            &&& line.subrange(k + 1, k + 1 + name.len()) == name
            &&& !name.contains(';')
            &&& k + 1 + name.len() == line.len() || line[k + 1 + name.len()] == ';'
        }
}

proof fn lemma_line_gives_name(line: Seq<char>, cp: u32, name: Seq<char>)
    ensures
        line_gives_name(line, cp, name) == (ucd_line(line) == Some((cp, name))),
{
    let k = index_from(line, ';', 0);
    lemma_index_from(line, ';', 0);
    lemma_index_from(line, ';', k + 1);
    let end = index_from(line, ';', k + 1);
    if ucd_line(line) == Some((cp, name)) {
        assert(!line.take(k).contains(';')) by {
            if line.take(k).contains(';') {
                let i = choose|i: int| 0 <= i < k && line.take(k)[i] == ';';
                assert(line[i] == ';');
            }
        }
        assert(!name.contains(';')) by {
            if name.contains(';') {
                let i = choose|i: int| 0 <= i < name.len() && name[i] == ';';
                assert(line[k + 1 + i] == ';');
            }
        }
        assert(line.subrange(k + 1, k + 1 + name.len()) == name);
    }
    if line_gives_name(line, cp, name) {
        let q = choose|q: int|
            #![trigger line.take(q)]
            {
                &&& 0 <= q
                &&& q + 1 + name.len() <= line.len()
                &&& !line.take(q).contains(';')
                &&& line[q] == ';'
                &&& parse_u32(line.take(q), 16) == Some(cp)
                &&& line.subrange(q + 1, q + 1 + name.len()) == name
                &&& !name.contains(';')
                &&& q + 1 + name.len() == line.len() || line[q + 1 + name.len()] == ';'
            };
        assert(k == q) by {
            if k < q {
                assert(line.take(q)[k] == ';');
            }
        }
        let e = q + 1 + name.len();
        assert forall|i: int| q + 1 <= i < e implies line[i] != ';' by {
            assert(line.subrange(q + 1, e)[i - q - 1] == name[i - q - 1]);
        }
        assert(end == e);
    }
}

/// A codepoint's name is that of the last line that gives it one, and it has a
/// name exactly if some line does; the lines that give none are counted.
pub proof fn names_are_those_of_the_last_lines(lines: Seq<Seq<char>>, cp: u32)
    ensures
        ucd_names(lines).contains_key(cp) <==> exists|k: int, name: Seq<char>|
            0 <= k < lines.len() && #[trigger] line_gives_name(lines[k], cp, name),
        ucd_names(lines).contains_key(cp) ==> exists|k: int|
            #![trigger lines[k]]
            {
                &&& 0 <= k < lines.len()
                &&& line_gives_name(lines[k], cp, ucd_names(lines)[cp])
                &&& forall|j: int, name: Seq<char>|
                    k < j < lines.len() ==> !#[trigger] line_gives_name(lines[j], cp, name)
            },
    decreases lines.len(),
{
    if lines.len() > 0 {
        let init = lines.drop_last();
        let n = init.len() as int;
        assert(lines[n] == lines.last());
        names_are_those_of_the_last_lines(init, cp);
        assert forall|c: u32, name: Seq<char>| #[trigger] line_gives_name(lines.last(), c, name) == (
        ucd_line(lines.last()) == Some((c, name))) by {
            lemma_line_gives_name(lines.last(), c, name);
        }
        assert forall|k: int, name: Seq<char>| 0 <= k < n implies #[trigger] line_gives_name(
            lines[k],
            cp,
            name,
        ) == line_gives_name(init[k], cp, name) by {
            assert(lines[k] == init[k]);
        }
        let here = ucd_line(lines.last()) matches Some(e) && e.0 == cp;
        if here {
            assert(line_gives_name(lines[n], cp, ucd_names(lines)[cp]));
        } else {
            assert(ucd_names(lines).contains_key(cp) == ucd_names(init).contains_key(cp));
            if ucd_names(init).contains_key(cp) {
                assert(ucd_names(lines)[cp] == ucd_names(init)[cp]);
                let k = choose|k: int|
                    #![trigger init[k]]
                    {
                        &&& 0 <= k < init.len()
                        &&& line_gives_name(init[k], cp, ucd_names(init)[cp])
                        &&& forall|j: int, name: Seq<char>|
                            k < j < init.len() ==> !#[trigger] line_gives_name(init[j], cp, name)
                    };
                assert(lines[k] == init[k]);
                assert(line_gives_name(lines[k], cp, ucd_names(lines)[cp]));
                assert forall|j: int, name: Seq<char>| k < j < lines.len() implies
                    !#[trigger] line_gives_name(lines[j], cp, name) by {
                    if j < n {
                        assert(!line_gives_name(init[j], cp, name));
                    }
                }
            }
        }
        if exists|k: int, name: Seq<char>|
            0 <= k < lines.len() && #[trigger] line_gives_name(lines[k], cp, name) {
            let (k, name) = choose|k: int, name: Seq<char>|
                0 <= k < lines.len() && #[trigger] line_gives_name(lines[k], cp, name);
            if k < n {
                assert(line_gives_name(init[k], cp, name));
            }
        }
    }
}

/// An entry says of its candidate what the catalog says, names its constant by the
/// id in capitals and its module by the block, and carries the official name where
/// there is one.
pub proof fn entries_describe_their_candidate(
    v: Seq<Entry>,
    keep: spec_fn(Seq<char>) -> bool,
    names: Map<u32, String>,
    i: int,
)
    requires
        is_manifest(v, keep, names),
        0 <= i < v.len(),
    ensures
        v[i].glyph as u32 == v[i].codepoint,
        v[i].const_name@.len() == v[i].id@.len(),
        forall|k: int|
            0 <= k < v[i].id@.len() ==> capital_of(#[trigger] v[i].const_name@[k], v[i].id@[k]),
        names.contains_key(v[i].codepoint) ==> v[i].unicode_name@ == names[v[i].codepoint]@,
        !names.contains_key(v[i].codepoint) ==> v[i].unicode_name@.len() == 0,
        0x21 <= v[i].codepoint <= 0x7E && v[i].module@ == "ascii"@ || 0x2500 <= v[i].codepoint
            <= 0x257F && v[i].module@ == "box_drawing"@ || 0x2580 <= v[i].codepoint <= 0x259F
            && v[i].module@ == "block_elements"@ || 0x2801 <= v[i].codepoint <= 0x28FF
            && v[i].module@ == "braille"@,
{
    entries_come_from_candidates(v, keep, names);
    assert(of_candidate(v[i], names));
    let c = choose|c: Candidate| #[trigger]
        is_entry_for(v[i], c, names) && is_entry(c, c.codepoint as int);
    assert forall|k: int| 0 <= k < v[i].id@.len() implies capital_of(
        #[trigger] v[i].const_name@[k],
        v[i].id@[k],
    ) by {
        lemma_capital(c.id@[k]);
        assert(upper(c.id@)[k] == ascii_upper(c.id@[k]));
    }
}

/// The first character is the second, as a capital where that is a small ASCII
/// letter.
pub open spec fn capital_of(a: char, b: char) -> bool {
    if 0x61 <= b as u32 <= 0x7A {
        a as u32 + 32 == b as u32
    } else {
        a == b
    }
}

proof fn lemma_capital(c: char)
    ensures
        capital_of(ascii_upper(c), c),
{
}

/// Without a condition the manifest has an entry for every candidate of the
/// registry.
pub proof fn unconditional_manifests_hold_the_registry(
    v: Seq<Entry>,
    names: Map<u32, String>,
    cp: int,
)
    requires
        is_manifest(v, |id: Seq<char>| true, names),
        0x21 <= cp <= 0x7E || 0x2500 <= cp <= 0x259F || 0x2801 <= cp <= 0x28FF,
    ensures
        exists|i: int| 0 <= i < v.len() && (#[trigger] v[i]).codepoint == cp,
{
    kept_candidates_are_listed(v, |id: Seq<char>| true, names, cp);
}

/// The lines that give no name.
pub open spec fn nameless(ls: Seq<Seq<char>>) -> Set<int> {
    Set::new(|k: int| 0 <= k < ls.len() && ucd_line(ls[k]) is None)
}

/// As many lines are skipped as give no name.
pub proof fn skipped_lines_give_no_name(ls: Seq<Seq<char>>)
    ensures
        nameless(ls).finite(),
        ucd_skipped(ls) == nameless(ls).len(),
    decreases ls.len(),
{
    if ls.len() == 0 {
        assert(nameless(ls) =~= Set::empty());
    } else {
        let init = ls.drop_last();
        skipped_lines_give_no_name(init);
        if ucd_line(ls.last()) is None {
            assert(nameless(ls) =~= nameless(init).insert(ls.len() - 1));
        } else {
            assert(nameless(ls) =~= nameless(init));
        }
    }
}

/// Why an aggregation is refused, in words.
pub proof fn refusals_read(platform: Seq<char>, host: Seq<char>, i: int, shown: Seq<char>)
    ensures
        host_fault(platform, host) is Some ==> exists|set: Seq<char>|
            host_fault(platform, host) == Some(
                "platform '"@ + platform + "': host '"@ + host + "' not in sanctioned set "@
                    + #[trigger] sanctioned_set(set),
            ) && (set == "[\"wt\", \"conhost\"]"@ || set == "[\"xterm\", \"gnome-terminal\"]"@ || set
                == "[\"terminal-app\"]"@),
        host_fault(platform, host) is Some ==> fault_text(
            ManifestFault::Host(i, host_fault(platform, host)->Some_0),
        ) == host_fault(platform, host)->Some_0,
        fault_text(ManifestFault::Degraded(i))
            == "pass1_support=false — a degraded run can never pass aggregation"@,
        fault_text(ManifestFault::UniverseSkew)
            == "input verdict universes differ — catalogs out of sync between runs"@,
        unanalyzed_text(shown) == "structural failure Some("@ + shown + ") — nothing passes"@,
        fault_text(ManifestFault::Unanalyzed(i, shown)) == unanalyzed_text(quoted(shown)),
{
    if host_fault(platform, host) is Some {
        let set = sanctioned_text(family_of(platform)->Some_0);
        assert(sanctioned_set(set) == set);
    }
}

/// The hosts that a message lists.
pub open spec fn sanctioned_set(set: Seq<char>) -> Seq<char> {
    set
}

} // verus!
