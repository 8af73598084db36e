use std::collections::{HashMap, HashSet};
use term_icon::catalog::Block;
use term_icon::codegen::manifest_source;
use term_icon::manifest::{
    generate_from_catalog, generate_from_inputs, load_ucd_names, module_name, previous_ids,
    unanalyzed_message, validate_host, Entry, ManifestError, VerdictEntry, VerdictsFile,
};

fn verdicts(platform: &str, host: &str, passing: &[&str], all: &[&str]) -> VerdictsFile {
    VerdictsFile {
        platform: platform.into(),
        host: host.into(),
        pass1_support: true,
        structural_fail: None,
        results: all
            .iter()
            .map(|id| VerdictEntry {
                id: id.to_string(),
                overall: if passing.contains(id) { "pass" } else { "fail" }.into(),
            })
            .collect(),
    }
}

fn ids(entries: Vec<Entry>) -> HashSet<String> {
    entries.into_iter().map(|e| e.id).collect()
}

#[test]
fn scrapes_ids_from_generated_manifest_lines() {
    let raw = r#"
pub const BOX_2502: IconEntry = IconEntry { id: "box_2502", codepoint: 0x2502, .. };
pub const MISC_2605: IconEntry = IconEntry { id: "misc_2605", codepoint: 0x2605, .. };
"#;
    let ids = previous_ids(raw);
    assert!(ids.contains(&"box_2502".to_string()));
    assert!(ids.contains(&"misc_2605".to_string()));

    // Missing file ⇒ empty set (bootstrap-friendly).
    assert!(previous_ids("").is_empty());
}

#[test]
fn ucd_parse_is_lenient_and_resolves_names() {
    let raw = "2502;BOX DRAWINGS LIGHT VERTICAL;Sm;0;ON;;;;;N;;;;;\ngarbage-line\nZZZZ;BAD CP;\n";
    let (names, skipped) = load_ucd_names(raw);
    assert_eq!(
        names.get(&0x2502).map(String::as_str),
        Some("BOX DRAWINGS LIGHT VERTICAL")
    );
    assert_eq!(names.len(), 1, "malformed lines are skipped");
    assert_eq!(skipped, 2);
}

#[test]
fn and_gate_intersects_passing_sets() {
    let all = ["ascii_0021", "box_2502", "block_2588", "braille_2801"];
    let inputs = [
        verdicts("linux/xterm", "xterm", &all[..3], &all),
        verdicts("macos/terminal-app", "terminal-app", &all[1..], &all),
        verdicts("windows/wt", "wt", &[all[0], all[2], all[3]], &all),
    ];
    let survivors = generate_from_inputs(&inputs, &[], &HashMap::new()).unwrap();
    // Only block_2588 passes on ALL three platforms.
    assert_eq!(ids(survivors), HashSet::from(["block_2588".to_string()]));
}

#[test]
fn unsanctioned_host_is_rejected() {
    let inputs = [verdicts("windows/wt", "gnome-terminal", &[], &["a"])];
    let err = generate_from_inputs(&inputs, &[], &HashMap::new()).unwrap_err();
    assert!(matches!(err, ManifestError::Host { file: 0, .. }));
    assert_eq!(err.file(), Some(0));
    assert_eq!(
        err.message(),
        "platform 'windows/wt': host 'gnome-terminal' not in sanctioned set [\"wt\", \"conhost\"]"
    );
}

#[test]
fn degraded_pass1_never_passes_aggregation() {
    let mut file = verdicts("linux/xterm", "xterm", &["ascii_0021"], &["ascii_0021"]);
    file.pass1_support = false;
    let err = generate_from_inputs(&[file], &[], &HashMap::new()).unwrap_err();
    assert!(matches!(err, ManifestError::Degraded { file: 0 }));
    assert_eq!(
        err.message(),
        "pass1_support=false — a degraded run can never pass aggregation"
    );
}

#[test]
fn structural_failure_fails_everything() {
    let mut file = verdicts(
        "macos/terminal-app",
        "terminal-app",
        &["ascii_0021"],
        &["ascii_0021"],
    );
    file.structural_fail = Some("page 0: bands mismatch".into());
    let good = verdicts("linux/xterm", "xterm", &["ascii_0021"], &["ascii_0021"]);
    let err = generate_from_inputs(&[good, file], &[], &HashMap::new()).unwrap_err();
    assert!(matches!(err, ManifestError::Unanalyzed { file: 1, .. }));
    assert_eq!(err.file(), Some(1));
    assert_eq!(
        err.message(),
        "structural failure Some(\"page 0: bands mismatch\") — nothing passes"
    );
    assert_eq!(
        unanalyzed_message("\"x\""),
        "structural failure Some(\"x\") — nothing passes"
    );
}

#[test]
fn universe_skew_is_detected() {
    let a = verdicts("linux/xterm", "xterm", &["ascii_0021"], &["ascii_0021"]);
    let b = verdicts(
        "windows/wt",
        "wt",
        &["ascii_0021"],
        &["ascii_0021", "box_2502"],
    );
    let err = generate_from_inputs(&[a, b], &[], &HashMap::new()).unwrap_err();
    assert!(matches!(err, ManifestError::UniverseSkew));
    assert_eq!(err.file(), None);
    assert_eq!(
        err.message(),
        "input verdict universes differ — catalogs out of sync between runs"
    );
}

#[test]
fn validate_host_accepts_conhost_headless_target() {
    assert!(validate_host("windows/conhost-run", "conhost").is_ok());
    assert!(validate_host("windows/wt", "wt").is_ok());
    assert!(validate_host("unknown/x", "whatever").is_ok()); // no policy
}

#[test]
fn hosts_are_checked_whatever_the_platform_case() {
    assert!(validate_host("Linux/xterm", "gnome-terminal").is_ok());
    assert!(validate_host("LINUX/xterm", "wt").is_err());
    assert!(validate_host("macOS/terminal-app", "terminal-app").is_ok());
    assert!(validate_host("macos", "iterm").is_err());
}

#[test]
fn shipped_icons_leave_after_two_failures() {
    let all = ["ascii_0021", "box_2502"];
    let previous = ["ascii_0021".to_string(), "box_2502".to_string()];
    let inputs = [
        verdicts("linux/xterm", "xterm", &["ascii_0021"], &all),
        verdicts("macos/terminal-app", "terminal-app", &[], &all),
        verdicts("windows/wt", "wt", &["ascii_0021"], &all),
    ];
    let kept = generate_from_inputs(&inputs, &previous, &HashMap::new()).unwrap();
    assert_eq!(ids(kept), HashSet::from(["ascii_0021".to_string()]));
    let fresh = generate_from_inputs(&inputs, &[], &HashMap::new()).unwrap();
    assert!(fresh.is_empty());
}

#[test]
fn bootstrap_entries_describe_their_candidates() {
    let mut names = HashMap::new();
    names.insert(0x2588, "FULL BLOCK".to_string());
    let entries = generate_from_catalog(&names);
    assert_eq!(entries.len(), 509);
    let e = entries.iter().find(|e| e.codepoint == 0x2588).unwrap();
    assert_eq!(e.id, "block_2588");
    assert_eq!(e.module, "block_elements");
    assert_eq!(e.const_name, "BLOCK_2588");
    assert_eq!(e.glyph, '█');
    assert_eq!(e.fallback, "#");
    assert_eq!(e.unicode_name, "FULL BLOCK");
    assert_eq!(entries[0].unicode_name, "");
}

#[test]
fn modules_are_named_after_their_blocks() {
    assert_eq!(module_name(Block::Ascii), "ascii");
    assert_eq!(module_name(Block::GeometricShapes), "geometric_shapes");
    assert_eq!(module_name(Block::Dingbats), "dingbats");
}

#[test]
fn scraped_ids_occur_once() {
    let raw = "id: \"box_2502\",\nid: \"box_2502\",\nnothing here\nid: \"box_2500\"\n";
    let ids = previous_ids(raw);
    let unique: HashSet<&String> = ids.iter().collect();
    assert_eq!(unique.len(), ids.len());
    assert_eq!(unique.len(), 2);
}

#[test]
fn sources_lead_back_to_the_ids() {
    let mut names = HashMap::new();
    names.insert(0x2502, "ODD \"NAME\" id: \"x\"\n".to_string());
    let table = generate_from_catalog(&names);
    let source = manifest_source(&table);
    let want: Vec<&str> = table.iter().map(|e| e.id.as_str()).collect();
    assert_eq!(previous_ids(&source), want);
    assert!(previous_ids(&manifest_source(&[])).is_empty());
}

#[test]
fn sources_have_one_constant_per_icon() {
    let mut names = HashMap::new();
    names.insert(0x2502, "BOX DRAWINGS LIGHT VERTICAL".to_string());
    let table: Vec<Entry> = generate_from_catalog(&names)
        .into_iter()
        .filter(|e| e.codepoint == 0x5C || e.codepoint == 0x2502)
        .collect();
    assert_eq!(
        manifest_source(&table),
        r#"// @generated by manifest-gen
use crate::universal::IconEntry;
use crate::SafeIcon;

pub const ASCII_005C: IconEntry = IconEntry { id: "ascii_005C", codepoint: 0x005C, icon: SafeIcon { glyph: "\\", fallback: "" }, block: "ascii", unicode_name: "" };
pub const BOX_2502: IconEntry = IconEntry { id: "box_2502", codepoint: 0x2502, icon: SafeIcon { glyph: "\u{2502}", fallback: "|" }, block: "box_drawing", unicode_name: "BOX DRAWINGS LIGHT VERTICAL" };

pub const ICON_ENTRIES: &[IconEntry] = &[
    ASCII_005C,
    BOX_2502,
];
"#
    );
}
