use std::collections::HashSet;
use term_icon::catalog::{
    candidates, id_for, total_count, Block, Candidate, ASCII_END, ASCII_START, BLOCK_ELEMENTS_END,
    BLOCK_ELEMENTS_START, BOX_DRAWING_END, BOX_DRAWING_START, BRAILLE_END, BRAILLE_START,
};

fn count_block(block: Block) -> usize {
    candidates().iter().filter(|c| c.block == block).count()
}

fn by_cp(cp: u32) -> Candidate {
    candidates()
        .into_iter()
        .find(|c| c.codepoint == cp)
        .expect("known codepoint")
}

#[test]
fn exact_per_block_counts() {
    assert_eq!(count_block(Block::Ascii), 94); // 0x21..=0x7E
    assert_eq!(count_block(Block::BoxDrawing), 128); // 0x2500..=0x257F
    assert_eq!(count_block(Block::BlockElements), 32); // 0x2580..=0x259F
    assert_eq!(count_block(Block::Braille), 255); // 0x2801..=0x28FF
    assert_eq!(total_count(), 509);
}

#[test]
fn blank_codepoints_excluded() {
    for c in candidates() {
        assert_ne!(c.codepoint, 0x20, "U+0020 must be excluded");
        assert_ne!(
            c.codepoint, 0x2800,
            "U+2800 BRAILLE PATTERN BLANK must be excluded"
        );
    }
    assert!(candidates().iter().any(|c| c.codepoint == 0x21));
    assert!(candidates().iter().any(|c| c.codepoint == 0x2801));
    assert!(candidates().iter().any(|c| c.codepoint == 0x28FF));
}

#[test]
fn sorted_unique_and_well_formed() {
    let all = candidates();
    let mut seen_cp = HashSet::new();
    let mut seen_id = HashSet::new();
    for pair in all.windows(2) {
        assert!(pair[0].codepoint < pair[1].codepoint);
    }
    for c in &all {
        assert!(seen_cp.insert(c.codepoint), "duplicate codepoint");
        assert!(seen_id.insert(c.id.as_str()), "duplicate id");
        assert!(char::from_u32(c.codepoint).is_some());
        if c.block == Block::Ascii {
            // ASCII glyphs are their own fallback; empty is correct.
            assert!(c.fallback.is_empty());
        } else {
            assert!(!c.fallback.is_empty());
        }
        assert_eq!(
            c.id,
            format!("{}_{}", c.block.prefix(), format!("{:04X}", c.codepoint))
        );
    }
}

#[test]
fn glyphs_roundtrip_and_fallbacks_curated() {
    assert_eq!(by_cp(0x2502).glyph(), '│');
    assert_eq!(by_cp(0x2502).fallback, "|");
    assert_eq!(by_cp(0x2588).fallback, "#");
    assert_eq!(by_cp(0x2801).fallback, "*");
    assert_eq!(by_cp(0x0041).fallback, "");
}

#[test]
fn const_names_are_screaming_snake() {
    let all = candidates();
    let c = all.iter().find(|c| c.codepoint == 0x2502).unwrap();
    assert_eq!(c.const_name(), "BOX_2502");
}

#[test]
fn ids_spell_prefix_and_codepoint() {
    assert_eq!(id_for(Block::Ascii, 0x21), "ascii_0021");
    assert_eq!(id_for(Block::Braille, 0x28FF), "braille_28FF");
    assert_eq!(id_for(Block::MiscSymbols, 0x2605), "misc_2605");
}

#[test]
fn every_glyph_is_its_codepoint() {
    for c in candidates() {
        assert_eq!(c.glyph() as u32, c.codepoint);
        assert_eq!(c.const_name(), c.id.to_uppercase());
    }
}

#[test]
fn ranges_are_inclusive() {
    let inside = |lo: u32, hi: u32| {
        candidates()
            .iter()
            .filter(|c| lo <= c.codepoint && c.codepoint <= hi)
            .count() as u32
    };
    assert_eq!(inside(ASCII_START, ASCII_END), ASCII_END - ASCII_START + 1);
    assert_eq!(
        inside(BOX_DRAWING_START, BOX_DRAWING_END),
        BOX_DRAWING_END - BOX_DRAWING_START + 1
    );
    assert_eq!(
        inside(BLOCK_ELEMENTS_START, BLOCK_ELEMENTS_END),
        BLOCK_ELEMENTS_END - BLOCK_ELEMENTS_START + 1
    );
    assert_eq!(
        inside(BRAILLE_START, BRAILLE_END),
        BRAILLE_END - BRAILLE_START + 1
    );
}

#[test]
fn block_prefixes_are_distinct() {
    let prefixes: HashSet<&str> = Block::ALL.iter().map(|b| b.prefix()).collect();
    assert_eq!(prefixes.len(), 8);
    let ranks: HashSet<u64> = Block::ALL.iter().map(|b| b.rank()).collect();
    assert_eq!(ranks.len(), 8);
}

#[test]
fn fallbacks_are_single_ascii_characters() {
    for c in candidates() {
        let want = if c.block == Block::Ascii { 0 } else { 1 };
        assert_eq!(c.fallback.len(), want, "{}", c.id);
        assert!(c.fallback.bytes().all(|b| (0x21..=0x7E).contains(&b)));
    }
}
