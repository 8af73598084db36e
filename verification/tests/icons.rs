use std::collections::HashMap;
use term_icon::gallery::{details, gallery, markdown, resolve, results_table};
use term_icon::manifest::{generate_from_catalog, Entry};
use term_icon::universal::{
    by_codepoint, by_id, by_number, iter, lookup, search, search_folded, IconEntry,
};
use term_icon::SafeIcon;

fn leak(s: String) -> &'static str {
    Box::leak(s.into_boxed_str())
}

fn to_icon(e: Entry) -> IconEntry {
    IconEntry {
        icon: SafeIcon::new(leak(e.glyph.to_string()), e.fallback),
        id: leak(e.id),
        codepoint: e.codepoint,
        block: e.module,
        unicode_name: leak(e.unicode_name),
    }
}

fn bootstrap() -> Vec<IconEntry> {
    let mut names = HashMap::new();
    names.insert(0x2502, "BOX DRAWINGS LIGHT VERTICAL".to_string());
    generate_from_catalog(&names)
        .into_iter()
        .map(to_icon)
        .collect()
}

fn entry(
    glyph: &'static str,
    id: &'static str,
    block: &'static str,
    unicode_name: &'static str,
) -> IconEntry {
    IconEntry {
        icon: SafeIcon::new(glyph, "*"),
        id,
        codepoint: glyph.chars().next().unwrap() as u32,
        block,
        unicode_name,
    }
}

/// One icon of every block.
fn samples() -> Vec<IconEntry> {
    vec![
        entry("!", "ascii_0021", "ascii", "EXCLAMATION MARK"),
        entry("\u{21A8}", "arrow_21A8", "arrows", "UP DOWN ARROW WITH BASE"),
        entry(
            "\u{2502}",
            "box_2502",
            "box_drawing",
            "BOX DRAWINGS LIGHT VERTICAL",
        ),
        entry("\u{258C}", "block_258C", "block_elements", "LEFT HALF BLOCK"),
        entry(
            "\u{25AA}",
            "geometric_25AA",
            "geometric_shapes",
            "BLACK SMALL SQUARE",
        ),
        entry("\u{2607}", "misc_2607", "misc_symbols", "LIGHTNING"),
        entry("\u{2758}", "dingbat_2758", "dingbats", "LIGHT VERTICAL BAR"),
        entry(
            "\u{2801}",
            "braille_2801",
            "braille",
            "BRAILLE PATTERN DOTS-1",
        ),
    ]
}

fn glyph_of(entries: &[IconEntry], id: &str) -> Option<&'static str> {
    lookup(entries, id).map(|i| i.glyph)
}

#[test]
fn cell_width_is_one() {
    assert_eq!(SafeIcon::CELL_WIDTH, 1);
}

#[test]
fn display_writes_glyph() {
    let icon = SafeIcon::new("│", "|");
    assert_eq!(icon.to_string(), "│");
}

#[test]
fn fallback_stands_in_for_the_glyph() {
    assert_eq!(SafeIcon::new("│", "|").fallback_or_glyph(), "|");
    assert_eq!(SafeIcon::new("A", "").fallback_or_glyph(), "A");
}

#[test]
fn manifest_is_sorted_and_unique() {
    let entries = bootstrap();
    let icons = iter(&entries);
    assert!(!icons.is_empty());
    for pair in icons.windows(2) {
        let a = pair[0].glyph.chars().next().unwrap();
        let b = pair[1].glyph.chars().next().unwrap();
        assert!(a < b, "manifest not sorted by codepoint: {a:?} >= {b:?}");
    }
}

#[test]
fn manifest_entries_stay_inside_verified_blocks() {
    let entries = bootstrap();
    for icon in iter(&entries) {
        let c = icon.glyph.chars().next().expect("glyph is one char");
        let cp = c as u32;
        let in_verified_block = (0x21..=0x7E).contains(&cp)
            || (0x2500..=0x257F).contains(&cp)
            || (0x2580..=0x259F).contains(&cp)
            || (0x2801..=0x28FF).contains(&cp);
        assert!(
            in_verified_block,
            "codepoint U+{cp:04X} outside verified single-cell blocks"
        );
        // Non-ASCII blocks must carry a conservative fallback; ASCII
        // glyphs are their own fallback (empty is correct).
        if !(0x21..=0x7E).contains(&cp) {
            assert!(!icon.fallback.is_empty());
        }
    }
}

#[test]
fn block_modules_resolve() {
    let all = samples();
    assert_eq!(glyph_of(&all, "ascii_0021"), Some("!"));
    assert_eq!(glyph_of(&all, "box_2502"), Some("\u{2502}"));
    assert_eq!(glyph_of(&all, "block_258C"), Some("\u{258C}"));
    assert_eq!(glyph_of(&all, "braille_2801"), Some("\u{2801}"));
    assert_eq!(glyph_of(&all, "arrow_21A8"), Some("\u{21A8}"));
    assert_eq!(glyph_of(&all, "geometric_25AA"), Some("\u{25AA}"));
    assert_eq!(glyph_of(&all, "misc_2607"), Some("\u{2607}"));
    assert_eq!(glyph_of(&all, "dingbat_2758"), Some("\u{2758}"));
}

#[test]
fn lookups_resolve() {
    let all = samples();
    assert_eq!(
        lookup(&all, "box_2502").map(|i| i.glyph),
        Some("\u{2502}")
    );
    assert_eq!(
        by_codepoint(&all, '\u{258C}').map(|i| i.glyph),
        Some("\u{258C}")
    );
    assert_eq!(
        lookup(&all, "arrow_21A8").map(|i| i.glyph),
        Some("\u{21A8}")
    );
    assert!(lookup(&all, "nonexistent").is_none());
    assert!(by_number(&all, 0x2503).is_none());
    assert_eq!(by_id(&all, "misc_2607").map(|e| e.codepoint), Some(0x2607));
}

#[test]
fn search_matches_name_id_and_codepoint() {
    let all = bootstrap();
    // Official Unicode name, case-insensitive.
    let by_name = search(&all, "light vertical");
    assert!(by_name.iter().any(|e| e.id == "box_2502"));
    // Catalog id substring.
    assert!(search(&all, "box_25").iter().all(|e| e.id.starts_with("box_")));
    // Hex codepoint with and without prefix, plus decimal.
    assert!(search(&all, "0x2502").iter().any(|e| e.id == "box_2502"));
    assert!(search(&all, "2502").iter().any(|e| e.id == "box_2502"));
    assert!(search(&all, "9474").iter().any(|e| e.id == "box_2502"));
    // Glyph character itself.
    assert!(search(&all, "\u{2502}").iter().any(|e| e.id == "box_2502"));
    // The empty query matches everything.
    assert_eq!(search(&all, "").len(), all.len());
}

#[test]
fn bootstrap_manifest_covers_full_catalog() {
    let entries = bootstrap();
    assert!(iter(&entries).len() >= 50);
    assert_eq!(entries.len(), 509);
}

#[test]
fn search_ignores_case_everywhere() {
    let all = samples();
    let ids = |q: &str| -> Vec<&'static str> { search(&all, q).iter().map(|e| e.id).collect() };
    assert_eq!(ids("ArRoW_21a8"), vec!["arrow_21A8"]);
    assert_eq!(ids("BOX_DRAWING"), vec!["box_2502"]);
    assert_eq!(ids("Light Vertical"), vec!["box_2502", "dingbat_2758"]);
    assert_eq!(ids("  u+2758 "), vec!["dingbat_2758"]);
    assert_eq!(ids("25aa"), vec!["geometric_25AA"]);
    assert!(ids("no such icon").is_empty());
}

#[test]
fn search_takes_the_case_forms_of_the_query() {
    let all = samples();
    let hits = search_folded(&all, "~", "LIGHTNING", "~");
    assert_eq!(hits.len(), 1);
    assert_eq!(hits[0].id, "misc_2607");
    let none = search_folded(&all, "lightning", "lightning", "lightning");
    assert!(none.is_empty());
}

#[test]
fn gallery_groups_by_block() {
    let all = samples();
    let text = gallery(&all, Some("BOX_drawing")).unwrap();
    let lines: Vec<&str> = text.lines().collect();
    assert_eq!(lines[0], "== box_drawing ==");
    assert_eq!(
        lines[1],
        format!(
            "{:<4} {:<16} {:<8} {:<16} {:<44} {}",
            "GLYPH", "ID", "CODEPOINT", "BLOCK", "UNICODE NAME", "FALLBACK"
        )
    );
    assert_eq!(lines[2], "-".repeat(96));
    assert_eq!(
        lines[3],
        format!(
            "{:<4} {:<16} U+{:04X}  {:<16} {:<44} {}",
            "\u{2502}", "box_2502", 0x2502, "box_drawing", "BOX DRAWINGS LIGHT VERTICAL", "*"
        )
    );
    assert_eq!(lines[4], "");
    assert_eq!(lines[5], "1 icons");
    assert_eq!(lines.len(), 6);
}

#[test]
fn gallery_without_a_match_is_empty() {
    assert!(gallery(&samples(), Some("nowhere")).is_none());
    let all = gallery(&samples(), None).unwrap();
    assert_eq!(all.matches("== ").count(), 8);
    assert!(all.ends_with("\n8 icons\n"));
}

#[test]
fn result_tables_have_one_header() {
    let all = samples();
    let text = results_table(&search(&all, "light vertical"));
    assert_eq!(text.matches("UNICODE NAME").count(), 1);
    assert_eq!(text.lines().count(), 6);
    assert!(text.ends_with("\n2 icons\n"));
    let none = results_table(&search(&all, "no such icon"));
    assert_eq!(none.lines().count(), 2);
}

#[test]
fn arguments_resolve_by_number_or_id() {
    let all = samples();
    let id = |arg: &str| resolve(&all, arg).map(|e| e.id);
    assert_eq!(id("0x2502"), Some("box_2502"));
    assert_eq!(id("U+2502"), Some("box_2502"));
    assert_eq!(id(" 9474 "), Some("box_2502"));
    assert_eq!(id("box_2502"), Some("box_2502"));
    assert_eq!(id("u+2502"), None);
    assert_eq!(id("2502"), None);
}

#[test]
fn printed_codepoints_lead_back() {
    let all = bootstrap();
    for e in &all {
        let printed = format!("U+{:04X}", e.codepoint);
        assert_eq!(resolve(&all, &printed).map(|r| r.id), Some(e.id));
        assert_eq!(lookup(&all, e.id), Some(e.icon));
        let c = e.icon.glyph.chars().next().unwrap();
        assert_eq!(by_codepoint(&all, c), Some(e.icon));
    }
}

#[test]
fn details_list_every_field() {
    let all = samples();
    assert_eq!(
        details(&all[2]),
        "glyph      \u{2502}\nid         box_2502\nconst      box_drawing::BOX_2502\n\
         codepoint  U+2502 (9474)\nblock      box_drawing\n\
         unicode name BOX DRAWINGS LIGHT VERTICAL\nfallback   *\n"
    );
}

#[test]
fn markdown_has_one_section_per_block() {
    let mut all = samples();
    all.truncate(3);
    all[1].unicode_name = "";
    let text = markdown(&all);
    let want = "# term-icon verified gallery\n\n\
        Every glyph below passed dual-pass verification (PTY + pixel) on macOS Terminal.app, \
        Windows conhost/WT, and Linux xterm simultaneously.\n\n\
        ## ascii\n\n\
        | Glyph | Id | Codepoint | Unicode name | Fallback |\n|---|---|---|---|---|\n\
        | ! | `ascii_0021` | U+0021 | EXCLAMATION MARK | `*` |\n\
        \n## arrows\n\n\
        | Glyph | Id | Codepoint | Unicode name | Fallback |\n|---|---|---|---|---|\n\
        | \u{21A8} | `arrow_21A8` | U+21A8 | — | `*` |\n\
        \n## box_drawing\n\n\
        | Glyph | Id | Codepoint | Unicode name | Fallback |\n|---|---|---|---|---|\n\
        | \u{2502} | `box_2502` | U+2502 | BOX DRAWINGS LIGHT VERTICAL | `*` |\n";
    assert_eq!(text, want);
}

#[test]
fn search_results_keep_the_order_of_the_set() {
    let table = bootstrap();
    for query in ["25", "box", "0x2502", "", "no such icon"] {
        let found: Vec<u32> = search(&table, query).iter().map(|e| e.codepoint).collect();
        assert!(found.windows(2).all(|w| w[0] < w[1]), "{query:?}");
        assert!(found.iter().all(|cp| table.iter().any(|e| e.codepoint == *cp)));
    }
    assert_eq!(search(&table, "").len(), table.len());
    assert!(search(&table, "no such icon").is_empty());
}

#[test]
fn tables_ascend_and_substitute_outside_ascii() {
    let table = generate_from_catalog(&HashMap::new());
    assert!(!table.is_empty());
    assert!(table.windows(2).all(|w| w[0].codepoint < w[1].codepoint && w[0].glyph < w[1].glyph));
    for e in &table {
        let printable = (0x21..=0x7E).contains(&e.codepoint);
        assert_eq!(e.fallback.is_empty(), printable, "{}", e.id);
    }
}

#[test]
fn every_icon_is_found_by_number_and_glyph() {
    let table = bootstrap();
    for e in table.iter().step_by(17) {
        let cp = e.codepoint;
        for query in [
            format!("{cp}"),
            format!("{cp:04X}"),
            format!("0x{cp:04x}"),
            format!("U+{cp:04X}"),
            e.icon.glyph.to_string(),
            e.id.to_uppercase(),
        ] {
            assert!(search(&table, &query).contains(&e), "{query:?}");
        }
    }
}

#[test]
fn prefix_queries_find_one_block() {
    let table = bootstrap();
    for (query, prefix) in [
        ("box_25", "box_"),
        ("BOX_D", "box_"),
        ("block_e", "block_"),
        ("braille_28f", "braille_"),
        ("ascii_", "ascii_"),
    ] {
        let found = search(&table, query);
        assert!(!found.is_empty(), "{query}");
        assert!(found.iter().all(|e| e.id.starts_with(prefix)), "{query}");
    }
    assert!(search(&table, "arrow_").is_empty());
}
