use term_icon::analyze::{
    all_pass, analyze_page, check_page_count, error_message, model_of, page_geometry,
    page_fits, page_is_contiguous, summary_line, Assessment,
};
use term_icon::catalog::Block;
use term_icon::geom::{suppress_structural_lines, GeometryError};
use term_icon::raster::{GrayImage, RgbImage};
use term_icon::schema::{Pass1Report, Pass1Result, Pass1Status, RowEntry, Sidecar};
use term_icon::validate::{measure, CaptureGate};
use term_icon::verdict::{merge, VerdictReport};

const BG: u8 = 10;
const FG: u8 = 220;
const ORIGIN_X: f64 = 10.0;
const PITCH: f64 = 14.0;
const CELL_H: u32 = 16;
const ROW_STRIDE: u32 = CELL_H + 6; // blank gap keeps bands separated

#[derive(Clone, Copy, PartialEq)]
enum IconKind {
    Solid,
    Blank,
    Wide,
    BrailleDot,
}

struct PageSpec {
    candidates: Vec<(u32, Block, IconKind)>, // (codepoint, block, kind)
}

fn draw_row(img: &mut GrayImage, row: u32, icon: Option<IconKind>) {
    let top = 6 + row * ROW_STRIDE;
    let bottom = top + CELL_H - 1;
    // Boundary bars at col 0 and col 6 (thin).
    for col in [0usize, 6] {
        let cx = (ORIGIN_X + col as f64 * PITCH).round() as i64;
        for dx in [-1i64, 0] {
            for y in top..=bottom {
                img.put_pixel((cx + dx) as u32, y, FG);
            }
        }
    }
    // Sentinel blobs at col 2 ('A') and col 4 ('B').
    for col in [2usize, 4] {
        let cx = (ORIGIN_X + col as f64 * PITCH).round() as i64;
        let half = (PITCH * 0.22) as i64;
        for y in top..=bottom {
            for dx in -half..=half {
                img.put_pixel((cx + dx) as u32, y, FG);
            }
        }
    }
    // Icon slot at col 3.
    if let Some(kind) = icon {
        let cx = (ORIGIN_X + 3.0 * PITCH).round() as i64;
        match kind {
            IconKind::Solid => {
                let half = (PITCH * 0.3) as i64;
                for y in top + 2..=bottom - 2 {
                    for dx in -half..=half {
                        img.put_pixel((cx + dx) as u32, y, FG);
                    }
                }
            }
            IconKind::Wide => {
                // Extends past the central crop into the gutter.
                let right = (PITCH * 0.55) as i64;
                for y in top + 2..=bottom - 2 {
                    for dx in -(PITCH * 0.3) as i64..=right {
                        img.put_pixel((cx + dx) as u32, y, FG);
                    }
                }
            }
            IconKind::BrailleDot => {
                img.put_pixel(cx as u32, top + CELL_H / 2, FG);
            }
            IconKind::Blank => {}
        }
    }
}

fn draw_page(spec: &PageSpec) -> GrayImage {
    let rows = spec.candidates.len() + 1; // + control
    let h = 12 + u32::try_from(rows).unwrap() * ROW_STRIDE;
    let mut img = GrayImage::from_pixel(200, h, BG);
    draw_row(&mut img, 0, None); // control row | A B |
    for (r, (_, _, kind)) in spec.candidates.iter().enumerate() {
        draw_row(&mut img, r as u32 + 1, Some(*kind));
    }
    img
}

fn sidecar(pages: &[PageSpec]) -> Sidecar {
    let mut rows = Vec::new();
    for (p, page) in pages.iter().enumerate() {
        rows.push(RowEntry::Control {
            page: p as u32,
            page_row: 0,
        });
        for (ri, (cp, block, _)) in page.candidates.iter().enumerate() {
            rows.push(RowEntry::Candidate {
                id: format!("c_{p}_{ri}"),
                codepoint: *cp,
                block: *block,
                page: p as u32,
                page_row: ri as u16 + 1,
                expected_end_col: 8,
            });
        }
    }
    Sidecar {
        schema_version: 1,
        platform: "test/platform".into(),
        host: "xterm".into(),
        pass1_support: true,
        pass1_method: "batched-dsr".into(),
        page_rows: 24,
        pages: pages.len() as u32,
        rows,
    }
}

/// `statuses`: id → pass1 status; missing ids become `inconclusive`.
fn pass1(statuses: &[(&str, Pass1Status)]) -> Pass1Report {
    Pass1Report {
        pass1_support: true,
        results: statuses
            .iter()
            .map(|(id, status)| Pass1Result {
                id: id.to_string(),
                codepoint: 0,
                status: *status,
            })
            .collect(),
    }
}

fn rgb_of(gray: &GrayImage) -> RgbImage {
    let data = gray.data.iter().flat_map(|v| [*v, *v, *v]).collect();
    RgbImage::from_raw(gray.width, gray.height, data).unwrap()
}

/// The capture statistics with a minimum entropy, as the command line has it.
fn plausible(gray: &GrayImage, min_entropy: f64) -> bool {
    let stats = measure(&rgb_of(gray));
    let entropy: f64 = stats
        .histogram
        .iter()
        .filter(|n| **n > 0)
        .map(|n| {
            let p = *n as f64 / stats.pixels as f64;
            -p * p.log2()
        })
        .sum();
    stats.passes(&CaptureGate::default(), entropy >= min_entropy)
}

fn run_on(images: &[GrayImage], sidecar: &Sidecar, pass1: &Pass1Report) -> VerdictReport {
    let mut a = Assessment::new();
    for (page, gray) in images.iter().enumerate() {
        let ok = plausible(gray, 0.3);
        a.take_page(page as u32, gray, ok, "stats", sidecar, pass1);
    }
    a.finish(sidecar, pass1)
}

fn run(pages: &[PageSpec], pass1: &Pass1Report) -> VerdictReport {
    let images: Vec<GrayImage> = pages.iter().map(draw_page).collect();
    run_on(&images, &sidecar(pages), pass1)
}

#[test]
fn perfect_pages_pass_end_to_end() {
    let pages = vec![
        PageSpec {
            candidates: vec![
                (0x2502, Block::BoxDrawing, IconKind::Solid),
                (0x0041, Block::Ascii, IconKind::Solid),
                (0x2801, Block::Braille, IconKind::BrailleDot), // single dot!
            ],
        },
        PageSpec {
            candidates: vec![
                (0x2588, Block::BlockElements, IconKind::Solid),
                (0x2500, Block::BoxDrawing, IconKind::Solid),
            ],
        },
    ];
    // No pass1 data → inconclusive!
    let report = run(&pages, &pass1(&[]));
    assert!(!all_pass(&report), "missing pass1 data must fail closed");
    assert!(report
        .results
        .iter()
        .all(|v| v.pass1 == "inconclusive" && v.overall == "fail"));
    assert_eq!(report.results.len(), 5);
    assert!(report.structural_fail.is_none());
    assert!(report.results.iter().all(|v| v.visible && v.no_bleed));
}

#[test]
fn perfect_pages_pass_with_pass1_data() {
    let pages = vec![PageSpec {
        candidates: vec![
            (0x2502, Block::BoxDrawing, IconKind::Solid),
            (0x0041, Block::Ascii, IconKind::Solid),
            (0x2801, Block::Braille, IconKind::BrailleDot),
            (0x2591, Block::BlockElements, IconKind::Solid),
        ],
    }];
    let statuses: Vec<(String, Pass1Status)> = (0..4)
        .map(|ri| (format!("c_0_{ri}"), Pass1Status::Pass))
        .collect();
    let borrowed: Vec<(&str, Pass1Status)> =
        statuses.iter().map(|(a, b)| (a.as_str(), *b)).collect();
    let report = run(&pages, &pass1(&borrowed));
    let ok = all_pass(&report);
    println!(
        "ok={ok} structural={:?} results={:#?}",
        report.structural_fail, report.results
    );
    assert!(ok);
    assert_eq!(summary_line(&report), "verdicts: 4/4 candidates pass");
}

#[test]
fn wide_glyph_and_blank_fail_with_precise_reasons() {
    let pages = vec![PageSpec {
        candidates: vec![
            (0x2502, Block::BoxDrawing, IconKind::Solid),   // passes
            (0x2588, Block::BlockElements, IconKind::Wide), // bleeds
            (0x2801, Block::Braille, IconKind::Blank),      // invisible
        ],
    }];
    let statuses = [
        ("c_0_0", Pass1Status::Pass),
        ("c_0_1", Pass1Status::Fail), // PTY-level expansion detected by harness
        ("c_0_2", Pass1Status::Pass),
    ];
    let report = run(&pages, &pass1(&statuses));
    assert!(!all_pass(&report));
    assert_eq!(report.results[0].overall, "pass");
    assert_eq!(report.results[1].overall, "fail");
    assert!(report.results.iter().all(|v| v.visible || v.id == "c_0_2"));
    assert!(!report.results[1].no_bleed);
    assert!(!report.results[2].visible);
    assert_eq!(report.passing_ids(), vec!["c_0_0"]);
}

#[test]
fn wrong_png_count_is_a_usage_error() {
    let pages = vec![PageSpec {
        candidates: vec![(0x2502, Block::BoxDrawing, IconKind::Solid)],
    }];
    // 0 pngs, 1 page
    let sc = sidecar(&pages);
    assert_eq!(
        check_page_count(sc.pages, 0),
        Err("expected 1 page images, got 0".to_string())
    );
    assert!(check_page_count(sc.pages, 1).is_ok());
}

#[test]
fn blank_capture_triggers_structural_fail() {
    let pages = vec![PageSpec {
        candidates: vec![(0x2502, Block::BoxDrawing, IconKind::Solid)],
    }];
    let img = GrayImage::from_pixel(200, 40, BG);
    let report = run_on(&[img], &sidecar(&pages), &pass1(&[]));
    assert!(!all_pass(&report));
    assert!(report.structural_fail.is_some());
    assert!(!report.pass1_support);
    assert!(report.results.iter().all(|v| v.overall == "fail"));
    assert_eq!(
        report.structural_fail.as_deref(),
        Some("page 0: implausible capture (stats)")
    );
    assert_eq!(
        summary_line(&report),
        "verdicts: 0/1 candidates pass [STRUCTURAL FAIL]"
    );
}

#[test]
fn missing_rows_fail_every_candidate() {
    let pages = vec![
        PageSpec {
            candidates: vec![(0x2502, Block::BoxDrawing, IconKind::Solid)],
        },
        PageSpec {
            candidates: vec![
                (0x2503, Block::BoxDrawing, IconKind::Solid),
                (0x2504, Block::BoxDrawing, IconKind::Solid),
            ],
        },
    ];
    let statuses = [
        ("c_0_0", Pass1Status::Pass),
        ("c_1_0", Pass1Status::Pass),
        ("c_1_1", Pass1Status::Pass),
    ];
    // The second page was captured with one row too few.
    let images = [draw_page(&pages[0]), draw_page(&pages[0])];
    let report = run_on(&images, &sidecar(&pages), &pass1(&statuses));
    assert_eq!(
        report.structural_fail.as_deref(),
        Some("page 1: 2 text bands rendered but sidecar declares 3 rows")
    );
    assert_eq!(report.results.len(), 3);
    assert!(report
        .results
        .iter()
        .all(|v| v.overall == "fail" && v.pass1 == "inconclusive" && !v.visible));
}

#[test]
fn pages_are_analyzed_row_by_row() {
    let page = PageSpec {
        candidates: vec![
            (0x2502, Block::BoxDrawing, IconKind::Solid),
            (0x2588, Block::BlockElements, IconKind::Wide),
        ],
    };
    let gray = draw_page(&page);
    let sc = sidecar(&[page]);
    let rows = sc.rows_for_page(0);
    assert!(page_is_contiguous(&rows));
    let model = model_of(&gray);
    assert_eq!((model.bg, model.delta), (BG, 60));
    let clean = suppress_structural_lines(&gray, &model);
    let (cal, bands) = page_geometry(&clean, &model, &rows).unwrap();
    assert_eq!(bands.len(), 3);
    assert_eq!((bands[1].top, bands[1].bottom), (28, 43));
    let (again, outcomes) = analyze_page(&clean, &model, &bands, &rows).unwrap();
    assert_eq!(again, cal);
    let seen: Vec<(bool, bool)> = outcomes.iter().map(|o| (o.visible, o.no_bleed)).collect();
    assert_eq!(seen, vec![(true, true), (true, true), (true, false)]);
}

#[test]
fn rows_past_the_page_are_noticed() {
    let row = RowEntry::Candidate {
        id: "x".into(),
        codepoint: 0x2502,
        block: Block::BoxDrawing,
        page: 0,
        page_row: 1,
        expected_end_col: 8,
    };
    assert!(!page_is_contiguous(&[&row]));
    // A page without its bands is refused before a row is looked up.
    let blank = GrayImage::from_pixel(340, 200, BG);
    assert!(page_fits(&blank, &[&row]));
    let mut assessment = Assessment::new();
    let sc = Sidecar {
        rows: vec![row.clone()],
        ..sidecar(&[])
    };
    let empty = pass1(&[]);
    assessment.take_page(0, &blank, false, "flat", &sc, &empty);
    assert_eq!(
        assessment.structural_fail.as_deref(),
        Some("page 0: implausible capture (flat)")
    );
    assessment.take_page(0, &blank, true, "", &sc, &empty);
    assert_eq!(
        assessment.structural_fail.as_deref(),
        Some("page 0: 0 text bands rendered but sidecar declares 1 rows")
    );
    assert_eq!((row.page(), row.page_row()), (0, 1));
}

#[test]
fn geometry_errors_read_as_text() {
    assert_eq!(error_message(&GeometryError::MissingBars), "MissingBars");
    assert_eq!(error_message(&GeometryError::BarsTooWide), "BarsTooWide");
    assert_eq!(
        error_message(&GeometryError::ImplausiblePitch),
        "ImplausiblePitch"
    );
    assert_eq!(
        error_message(&GeometryError::SentinelSpacingMismatch),
        "SentinelSpacingMismatch"
    );
    assert_eq!(
        error_message(&GeometryError::BandMismatch {
            found: 3,
            expected: 4
        }),
        "BandMismatch { found: 3, expected: 4 }"
    );
}

#[test]
fn verdicts_need_every_part() {
    let v = merge("a", 65, Pass1Status::Pass, true, true);
    assert_eq!((v.pass1.as_str(), v.overall.as_str()), ("pass", "pass"));
    for (status, visible, clean) in [
        (Pass1Status::Fail, true, true),
        (Pass1Status::Inconclusive, true, true),
        (Pass1Status::Pass, false, true),
        (Pass1Status::Pass, true, false),
    ] {
        assert_eq!(merge("a", 65, status, visible, clean).overall, "fail");
    }
}

#[test]
fn rows_of_a_page_are_ordered_by_place() {
    let mut sc = sidecar(&[PageSpec {
        candidates: vec![
            (0x2502, Block::BoxDrawing, IconKind::Solid),
            (0x2503, Block::BoxDrawing, IconKind::Solid),
        ],
    }]);
    sc.rows.reverse();
    let places: Vec<u16> = sc.rows_for_page(0).iter().map(|r| r.page_row()).collect();
    assert_eq!(places, vec![0, 1, 2]);
    assert!(sc.rows_for_page(1).is_empty());
}
