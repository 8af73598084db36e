//! Candidate registry of single-cell Unicode codepoints.
//!
//! The catalog enumerates every candidate icon that enters the verification
//! pipeline, restricted to Unicode blocks whose East Asian Width properties
//! avoid inherent width ambiguity:
//!
//! | Block | Range | Notes |
//! |---|---|---|
//! | Basic ASCII | `U+0021–U+007E` | `U+0020` excluded (blank render) |
//! | Box Drawing | `U+2500–U+257F` | |
//! | Block Elements | `U+2580–U+259F` | |
//! | Braille Patterns | `U+2801–U+28FF` | `U+2800` excluded (blank render) |
use crate::text::{
    chars_of, hex4, numeral, numeral_chars, numeral_fills_width, numeral_reads_back, push_chars, text_of,
    to_upper, upper,
};
use vstd::prelude::*;

verus! {

/// `char::from_u32` gives the character of a Unicode scalar value: `None` on
/// surrogates and beyond `0x10FFFF`, else the character with that number.
pub assume_specification[ char::from_u32 ](i: u32) -> (c: Option<char>)
    ensures
        c is Some <==> is_scalar(i as int),
        c matches Some(v) ==> v as u32 == i,
;

/// A Unicode scalar value: any code point that is not a surrogate.
pub open spec fn is_scalar(i: int) -> bool {
    0 <= i <= 0xD7FF || 0xE000 <= i <= 0x10FFFF
}

/// Start of the Basic ASCII candidate range (`U+0021`, exclusive of space).
pub const ASCII_START: u32 = 0x21;

/// End of the Basic ASCII candidate range.
pub const ASCII_END: u32 = 0x7E;

/// Start of the Box Drawing candidate range.
pub const BOX_DRAWING_START: u32 = 0x2500;

/// End of the Box Drawing candidate range.
pub const BOX_DRAWING_END: u32 = 0x257F;

/// Start of the Block Elements candidate range.
pub const BLOCK_ELEMENTS_START: u32 = 0x2580;

/// End of the Block Elements candidate range.
pub const BLOCK_ELEMENTS_END: u32 = 0x259F;

/// Start of the Braille Patterns candidate range.
///
/// `U+2800 BRAILLE PATTERN BLANK` is deliberately excluded: it renders zero
/// foreground pixels and would always fail the visibility assertion.
pub const BRAILLE_START: u32 = 0x2801;

/// End of the Braille Patterns candidate range.
pub const BRAILLE_END: u32 = 0x28FF;

/// The single-cell Unicode blocks an icon may belong to, in manifest order.
#[derive(Clone, Copy, Debug, PartialEq, Eq, PartialOrd, Ord, Hash, Structural)]
pub enum Block {
    /// Basic ASCII (`U+0021–U+007E`).
    Ascii,
    /// Arrows.
    Arrows,
    /// Box Drawing (`U+2500–U+257F`).
    BoxDrawing,
    /// Block Elements (`U+2580–U+259F`).
    BlockElements,
    /// Geometric Shapes.
    GeometricShapes,
    /// Miscellaneous Symbols.
    MiscSymbols,
    /// Dingbats.
    Dingbats,
    /// Braille Patterns (`U+2801–U+28FF`).
    Braille,
}

impl Block {
    /// All blocks, in manifest order.
    pub const ALL: [Block; 8] = [
        Block::Ascii,
        Block::Arrows,
        Block::BoxDrawing,
        Block::BlockElements,
        Block::GeometricShapes,
        Block::MiscSymbols,
        Block::Dingbats,
        Block::Braille,
    ];

    /// Position of the block in manifest order.
    pub open spec fn rank_spec(self) -> u64 {
        match self {
            Block::Ascii => 0,
            Block::Arrows => 1,
            Block::BoxDrawing => 2,
            Block::BlockElements => 3,
            Block::GeometricShapes => 4,
            Block::MiscSymbols => 5,
            Block::Dingbats => 6,
            Block::Braille => 7,
        }
    }

    /// Position of the block in manifest order.
    pub fn rank(self) -> (r: u64)
        ensures
            r == self.rank_spec(),
    {
        match self {
            Block::Ascii => 0,
            Block::Arrows => 1,
            Block::BoxDrawing => 2,
            Block::BlockElements => 3,
            Block::GeometricShapes => 4,
            Block::MiscSymbols => 5,
            Block::Dingbats => 6,
            Block::Braille => 7,
        }
    }

    /// The text of the identifier prefix.
    pub open spec fn prefix_text(self) -> Seq<char> {
        match self {
            Block::Ascii => "ascii"@,
            Block::Arrows => "arrow"@,
            Block::BoxDrawing => "box"@,
            Block::BlockElements => "block"@,
            Block::GeometricShapes => "geometric"@,
            Block::MiscSymbols => "misc"@,
            Block::Dingbats => "dingbat"@,
            Block::Braille => "braille"@,
        }
    }

    /// Lowercase identifier prefix used in catalog ids.
    pub fn prefix(self) -> (p: &'static str)
        ensures
            p@ == self.prefix_text(),
    {
        match self {
            Block::Ascii => "ascii",
            Block::Arrows => "arrow",
            Block::BoxDrawing => "box",
            Block::BlockElements => "block",
            Block::GeometricShapes => "geometric",
            Block::MiscSymbols => "misc",
            Block::Dingbats => "dingbat",
            Block::Braille => "braille",
        }
    }
}

/// A single candidate icon awaiting empirical verification.
#[derive(Clone, Debug, PartialEq, Eq)]
pub struct Candidate {
    /// Stable identifier: `{block_prefix}_{codepoint:04X}` (e.g. `box_2502`).
    pub id: String,
    /// The candidate codepoint.
    pub codepoint: u32,
    /// The owning Unicode block.
    pub block: Block,
    /// Conservative ASCII substitute.
    pub fallback: &'static str,
}

impl Candidate {
    /// The candidate as a `char`.
    pub fn glyph(&self) -> (c: char)
        requires
            is_scalar(self.codepoint as int),
        ensures
            c as u32 == self.codepoint,
    {
        char::from_u32(self.codepoint).unwrap()
    }

    /// SCREAMING_SNAKE constant name for generated manifests: ids like
    /// `box_2502` become `BOX_2502`.
    pub fn const_name(&self) -> (name: String)
        ensures
            name@ == upper(self.id@),
    {
        let id = chars_of(self.id.as_str());
        let up = to_upper(id.as_slice());
        text_of(up.as_slice())
    }
}

// ---------------------------------------------------------------------------
// Membership, ids and fallbacks
// ---------------------------------------------------------------------------
/// The candidate range that a codepoint lies in.
pub open spec fn block_of(cp: int) -> Option<Block> {
    if ASCII_START <= cp <= ASCII_END {
        Some(Block::Ascii)
    } else if BOX_DRAWING_START <= cp <= BOX_DRAWING_END {
        Some(Block::BoxDrawing)
    } else if BLOCK_ELEMENTS_START <= cp <= BLOCK_ELEMENTS_END {
        Some(Block::BlockElements)
    } else if BRAILLE_START <= cp <= BRAILLE_END {
        Some(Block::Braille)
    } else {
        None
    }
}

/// The id of a codepoint of a block.
pub open spec fn id_text(block: Block, cp: int) -> Seq<char> {
    block.prefix_text() + seq!['_'] + hex4(cp as nat)
}

/// Fallback of a Box Drawing codepoint: straight lines and diagonals keep their
/// direction, everything else is a junction.
pub open spec fn box_drawing_text(cp: int) -> Seq<char> {
    if cp == 0x2500 {
        "-"@
    } else if cp == 0x2502 || cp == 0x2551 {
        "|"@
    } else if cp == 0x2550 {
        "="@
    } else if cp == 0x2571 {
        "/"@
    } else if cp == 0x2572 {
        "\\"@
    } else if cp == 0x2573 {
        "x"@
    } else {
        "+"@
    }
}

/// Fallback of a Block Elements codepoint.
pub open spec fn block_elements_text(cp: int) -> Seq<char> {
    if cp == 0x2580 {
        "^"@
    } else if cp == 0x2584 {
        "_"@
    } else if cp == 0x258C {
        "["@
    } else if cp == 0x2590 {
        "]"@
    } else if cp == 0x2591 {
        "."@
    } else if cp == 0x2592 {
        ":"@
    } else {
        "#"@
    }
}

/// Fallback of a codepoint of a block. ASCII glyphs are their own fallback, so
/// theirs is empty.
pub open spec fn fallback_text(block: Block, cp: int) -> Seq<char> {
    match block {
        Block::Ascii => ""@,
        Block::BoxDrawing => box_drawing_text(cp),
        Block::BlockElements => block_elements_text(cp),
        _ => "*"@,
    }
}

fn box_drawing_fallback(cp: u32) -> (f: &'static str)
    ensures
        f@ == box_drawing_text(cp as int),
{
    match cp {
        0x2500 => "-",
        0x2502 => "|",
        0x2550 => "=",
        0x2551 => "|",
        0x2571 => "/",
        0x2572 => "\\",
        0x2573 => "x",
        _ => "+",
    }
}

fn block_elements_fallback(cp: u32) -> (f: &'static str)
    ensures
        f@ == block_elements_text(cp as int),
{
    match cp {
        0x2580 => "^",
        0x2584 => "_",
        0x258C => "[",
        0x2590 => "]",
        0x2591 => ".",
        0x2592 => ":",
        _ => "#",
    }
}

fn fallback_for(block: Block, cp: u32) -> (f: &'static str)
    ensures
        f@ == fallback_text(block, cp as int),
{
    match block {
        Block::Ascii => "",
        Block::BoxDrawing => box_drawing_fallback(cp),
        Block::BlockElements => block_elements_fallback(cp),
        _ => "*",
    }
}

/// The id of a codepoint of a block.
pub fn id_for(block: Block, cp: u32) -> (id: String)
    ensures
        id@ == id_text(block, cp as int),
{
    let mut out = chars_of(block.prefix());
    out.push('_');
    let digits = numeral_chars(cp as u64, 16, 4);
    push_chars(&mut out, digits.as_slice());
    assert(out@ =~= id_text(block, cp as int));
    text_of(out.as_slice())
}

// ---------------------------------------------------------------------------
// The registry
// ---------------------------------------------------------------------------
/// The candidate is the one of its codepoint.
pub open spec fn is_entry(c: Candidate, cp: int) -> bool {
    &&& block_of(cp) == Some(c.block)
    &&& c.codepoint == cp
    &&& c.id@ == id_text(c.block, cp)
    &&& c.fallback@ == fallback_text(c.block, cp)
}

/// The registry of the codepoints below `end`: every one of the candidate
/// ranges, once, in ascending order.
pub open spec fn registry_below(v: Seq<Candidate>, end: int) -> bool {
    &&& forall|i: int|
        0 <= i < v.len() ==> is_entry(#[trigger] v[i], v[i].codepoint as int) && v[i].codepoint
            < end
    &&& forall|i: int, j: int|
        0 <= i < j < v.len() ==> (#[trigger] v[i]).codepoint < (#[trigger] v[j]).codepoint
    &&& forall|cp: int|
        #![trigger block_of(cp)]
        block_of(cp) is Some && cp < end ==> has_codepoint(v, cp)
}

/// Some candidate has the codepoint.
pub open spec fn has_codepoint(v: Seq<Candidate>, cp: int) -> bool {
    exists|i: int| 0 <= i < v.len() && (#[trigger] v[i]).codepoint == cp
}

/// The whole registry.
pub open spec fn is_registry(v: Seq<Candidate>) -> bool {
    registry_below(v, 0x2900)
}

fn push_range(out: &mut Vec<Candidate>, start: u32, end: u32, block: Block)
    requires
        start <= end < 0x10000,
        registry_below(old(out)@, start as int),
        forall|cp: int| start <= cp <= end ==> #[trigger] block_of(cp) == Some(block),
    ensures
        registry_below(final(out)@, end + 1),
        final(out)@.len() == old(out)@.len() + (end - start + 1),
{
    for cp in start..end + 1
        invariant
            start <= end < 0x10000,
            registry_below(out@, cp as int),
            out@.len() == old(out)@.len() + (cp - start),
            forall|c: int| start <= c <= end ==> #[trigger] block_of(c) == Some(block),
    {
        let ghost before = out@;
        out.push(
            Candidate {
                id: id_for(block, cp),
                codepoint: cp,
                block,
                fallback: fallback_for(block, cp),
            },
        );
        proof {
            assert(block_of(cp as int) == Some(block));
            assert(is_entry(out@[before.len() as int], cp as int));
            assert forall|c: int|
                #![trigger block_of(c)]
                block_of(c) is Some && c < cp + 1 implies has_codepoint(out@, c) by {
                if c == cp {
                    assert(out@[before.len() as int].codepoint == c);
                } else {
                    assert(has_codepoint(before, c));
                    let i = choose|i: int|
                        0 <= i < before.len() && (#[trigger] before[i]).codepoint == c;
                    assert(out@[i].codepoint == c);
                }
            }
        }
    }
}

proof fn lemma_widen(v: Seq<Candidate>, end: int, wider: int)
    requires
        registry_below(v, end),
        end <= wider,
        forall|cp: int| end <= cp < wider ==> #[trigger] block_of(cp) is None,
    ensures
        registry_below(v, wider),
{
    assert forall|i: int| 0 <= i < v.len() implies is_entry(
        #[trigger] v[i],
        v[i].codepoint as int,
    ) && v[i].codepoint < wider by {}
}

/// The full candidate registry, sorted by codepoint.
pub fn candidates() -> (all: Vec<Candidate>)
    ensures
        is_registry(all@),
        all@.len() == 509,
{
    let mut out: Vec<Candidate> = Vec::new();
    proof {
        lemma_widen(out@, 0, ASCII_START as int);
    }
    push_range(&mut out, ASCII_START, ASCII_END, Block::Ascii);
    proof {
        lemma_widen(out@, ASCII_END + 1, BOX_DRAWING_START as int);
    }
    push_range(&mut out, BOX_DRAWING_START, BOX_DRAWING_END, Block::BoxDrawing);
    push_range(&mut out, BLOCK_ELEMENTS_START, BLOCK_ELEMENTS_END, Block::BlockElements);
    proof {
        lemma_widen(out@, BLOCK_ELEMENTS_END + 1, BRAILLE_START as int);
    }
    push_range(&mut out, BRAILLE_START, BRAILLE_END, Block::Braille);
    out
}

/// Total number of candidates.
pub fn total_count() -> (n: usize)
    ensures
        n == 509,
{
    candidates().len()
}

// ---------------------------------------------------------------------------
// Laws
// ---------------------------------------------------------------------------
/// The id determines the codepoint: no two codepoints of four hexadecimal
/// digits have the same id, whatever their blocks.
pub proof fn ids_are_unique(a: Block, x: int, b: Block, y: int)
    requires
        0 <= x < 0x10000,
        0 <= y < 0x10000,
        id_text(a, x) == id_text(b, y),
    ensures
        x == y,
{
    lemma_hex4_len(x);
    lemma_hex4_len(y);
    let s = id_text(a, x);
    assert(s.skip(s.len() - 4) =~= hex4(x as nat));
    assert(s.skip(s.len() - 4) =~= hex4(y as nat));
    numeral_reads_back(x as nat, 16, 4);
    numeral_reads_back(y as nat, 16, 4);
}

proof fn lemma_hex4_len(x: int)
    requires
        0 <= x < 0x10000,
    ensures
        hex4(x as nat).len() == 4,
{
    assert(vstd::arithmetic::power::pow(16, 4) == 0x10000) by {
        reveal_with_fuel(vstd::arithmetic::power::pow, 5);
    }
    numeral_fills_width(x as nat, 16, 4);
}

/// Any two registries list the same candidates in the same order: the registry
/// is fixed by its codepoint ranges.
pub proof fn registry_is_unique(v: Seq<Candidate>, w: Seq<Candidate>, i: int)
    requires
        is_registry(v),
        is_registry(w),
        0 <= i < v.len(),
    ensures
        i < w.len(),
        v[i].codepoint == w[i].codepoint,
        v[i].block == w[i].block,
        v[i].id@ == w[i].id@,
        v[i].fallback@ == w[i].fallback@,
    decreases i,
{
    if i > 0 {
        registry_is_unique(v, w, i - 1);
    }
    let cp = v[i].codepoint as int;
    assert(block_of(cp) is Some);
    assert(has_codepoint(w, cp));
    let j = choose|j: int| 0 <= j < w.len() && (#[trigger] w[j]).codepoint == cp;
    assert(j >= i) by {
        if j < i {
            assert(w[j].codepoint <= w[i - 1].codepoint);
            assert(v[i - 1].codepoint < v[i].codepoint);
        }
    }
    if j > i {
        let c = w[i].codepoint as int;
        assert(is_entry(w[i], c));
        assert(has_codepoint(v, c));
        let k = choose|k: int| 0 <= k < v.len() && (#[trigger] v[k]).codepoint == c;
        assert(w[i].codepoint < w[j].codepoint);
        if k > i {
            assert(v[i].codepoint < v[k].codepoint);
        }
        if k < i {
            assert(v[k].codepoint <= v[i - 1].codepoint);
            assert(w[i - 1].codepoint < w[i].codepoint);
        }
        assert(false);
    }
}

/// Nothing that renders blank is a candidate, and every candidate is a
/// character.
pub proof fn candidates_are_visible_characters(c: Candidate)
    requires
        is_entry(c, c.codepoint as int),
    ensures
        c.codepoint != 0x20,
        c.codepoint != 0x2800,
        is_scalar(c.codepoint as int),
{
}

/// Every fallback is plain ASCII: empty for ASCII glyphs, which stand for
/// themselves, and one visible character for all others.
pub proof fn fallbacks_are_plain_ascii(c: Candidate)
    requires
        is_entry(c, c.codepoint as int),
    ensures
        c.fallback@.len() == (if c.block == Block::Ascii {
            0int
        } else {
            1
        }),
        forall|i: int|
            0 <= i < c.fallback@.len() ==> 0x21 <= (#[trigger] c.fallback@[i]) as u32 <= 0x7E,
{
    reveal_strlit("");
    reveal_strlit("-");
    reveal_strlit("|");
    reveal_strlit("=");
    reveal_strlit("/");
    reveal_strlit("\\");
    reveal_strlit("x");
    reveal_strlit("+");
    reveal_strlit("^");
    reveal_strlit("_");
    reveal_strlit("[");
    reveal_strlit("]");
    reveal_strlit(".");
    reveal_strlit(":");
    reveal_strlit("#");
    reveal_strlit("*");
}

/// What the registry holds, in figures. The visible ASCII characters, the box
/// drawing characters, the block elements and the Braille patterns but the blank
/// one are in it, each once and in the order of their codepoints, and nothing else
/// is.
pub proof fn the_registry_holds_four_ranges(v: Seq<Candidate>, i: int, j: int, cp: int)
    requires
        is_registry(v),
        0 <= i < j < v.len(),
    ensures
        v[i].codepoint < v[j].codepoint,
        v[i].block is Ascii && 0x21 <= v[i].codepoint <= 0x7E || v[i].block is BoxDrawing && 0x2500
            <= v[i].codepoint <= 0x257F || v[i].block is BlockElements && 0x2580 <= v[i].codepoint
            <= 0x259F || v[i].block is Braille && 0x2801 <= v[i].codepoint <= 0x28FF,
        0x21 <= cp <= 0x7E || 0x2500 <= cp <= 0x259F || 0x2801 <= cp <= 0x28FF ==> exists|k: int|
            0 <= k < v.len() && (#[trigger] v[k]).codepoint == cp,
{
    assert(is_entry(v[i], v[i].codepoint as int));
    if block_of(cp) is Some {
        assert(has_codepoint(v, cp));
    }
}

/// The id of an entry is the prefix of its block, an underscore, and the codepoint
/// in four capital hexadecimal digits.
pub proof fn ids_spell_block_and_codepoint(v: Seq<Candidate>, i: int)
    requires
        is_registry(v),
        0 <= i < v.len(),
    ensures
        v[i].block is Ascii ==> v[i].id@ == "ascii"@ + seq!['_'] + numeral(
            v[i].codepoint as nat,
            16,
            4,
        ),
        v[i].block is BoxDrawing ==> v[i].id@ == "box"@ + seq!['_'] + numeral(
            v[i].codepoint as nat,
            16,
            4,
        ),
        v[i].block is BlockElements ==> v[i].id@ == "block"@ + seq!['_'] + numeral(
            v[i].codepoint as nat,
            16,
            4,
        ),
        v[i].block is Braille ==> v[i].id@ == "braille"@ + seq!['_'] + numeral(
            v[i].codepoint as nat,
            16,
            4,
        ),
{
    assert(is_entry(v[i], v[i].codepoint as int));
}

/// The plain text that stands in for a glyph. ASCII stands for itself, straight
/// lines and diagonals have a likeness, crossings and corners are a plus, halves
/// and shades have a likeness, other blocks are a hash, and Braille is a star.
pub proof fn fallbacks_are_likenesses(v: Seq<Candidate>, i: int)
    requires
        is_registry(v),
        0 <= i < v.len(),
    ensures
        ({
            let (f, cp) = (v[i].fallback@, v[i].codepoint);
            &&& v[i].block is Ascii ==> f == ""@
            &&& v[i].block is Braille ==> f == "*"@
            &&& cp == 0x2500 ==> f == "-"@
            &&& cp == 0x2502 ==> f == "|"@
            &&& cp == 0x2551 ==> f == "|"@
            &&& cp == 0x2550 ==> f == "="@
            &&& cp == 0x2571 ==> f == "/"@
            &&& cp == 0x2572 ==> f == "\\"@
            &&& cp == 0x2573 ==> f == "x"@
            &&& v[i].block is BoxDrawing && cp != 0x2500 && cp != 0x2502 && cp != 0x2550 && cp
                != 0x2551 && cp != 0x2571 && cp != 0x2572 && cp != 0x2573 ==> f == "+"@
            &&& cp == 0x2580 ==> f == "^"@
            &&& cp == 0x2584 ==> f == "_"@
            &&& cp == 0x258C ==> f == "["@
            &&& cp == 0x2590 ==> f == "]"@
            &&& cp == 0x2591 ==> f == "."@
            &&& cp == 0x2592 ==> f == ":"@
            &&& v[i].block is BlockElements && cp != 0x2580 && cp != 0x2584 && cp != 0x258C && cp
                != 0x2590 && cp != 0x2591 && cp != 0x2592 ==> f == "#"@
        }),
{
    assert(is_entry(v[i], v[i].codepoint as int));
}

} // verus!
