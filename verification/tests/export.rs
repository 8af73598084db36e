use std::collections::{BTreeMap, HashMap};
use term_icon::analyze::{model_of, page_geometry};
use term_icon::catalog::{candidates, id_for, Block, Candidate};
use term_icon::chart::{
    block_display_name, block_separated_placements, compose, find_name, metrics, place_specimen,
    tile, Export, GRID_COLUMNS, HEADER_BAND_H, INNER_GAP, LABEL_SCALE, LEGEND_BAND_H, SPECIMEN_LABEL_GAP,
    SPECIMEN_PAD_X, SPECIMEN_PAD_Y,
};
use term_icon::export::{CaptureError, Job};
use term_icon::font5x7::{text_width, FONT_H, FONT_W};
use term_icon::geom::{suppress_structural_lines, CellBox, GeometryError};
use term_icon::grid::{
    clamp_crop, crops_fit_page, find_crop, order_pages, parse_input, platform_index, platform_label, put_crop,
    Crop, GridError, PageError,
};
use term_icon::manifest::load_ucd_names;
use term_icon::raster::{zoom, GrayImage, RgbImage};
use term_icon::schema::{RowEntry, Sidecar};

const BG: u8 = 10;
const FG: u8 = 220;

/// Rasterization parameters of a synthetic platform capture.
#[derive(Clone, Copy, Debug)]
struct Geometry {
    origin_x: f64,
    pitch: f64,
    cell_h: u32,
}

impl Geometry {
    /// Row pitch: cell height plus a blank gap keeping bands separated.
    fn row_stride(&self) -> u32 {
        self.cell_h + 6
    }
}

const MACOS_GEOM: Geometry = Geometry {
    origin_x: 14.0,
    pitch: 14.0,
    cell_h: 16,
};
const WINDOWS_GEOM: Geometry = Geometry {
    origin_x: 8.0,
    pitch: 22.0,
    cell_h: 24,
};
const LINUX_GEOM: Geometry = Geometry {
    origin_x: 10.0,
    pitch: 18.0,
    cell_h: 20,
};
/// In platform order.
const GEOMS: [Geometry; 3] = [MACOS_GEOM, WINDOWS_GEOM, LINUX_GEOM];

#[derive(Clone, Copy, PartialEq)]
enum IconKind {
    Solid,
    /// The whole cell, edge to edge.
    FullSpan,
}

struct PageSpec {
    candidates: Vec<(u32, Block, IconKind)>, // (codepoint, block, kind)
}

fn draw_row(img: &mut GrayImage, geom: &Geometry, row: u32, icon: Option<IconKind>) {
    let top = 6 + row * geom.row_stride();
    let bottom = top + geom.cell_h - 1;
    // Boundary bars at col 0 and col 6 (thin).
    for col in [0usize, 6] {
        let cx = (geom.origin_x + col as f64 * geom.pitch).round() as i64;
        for dx in [-1i64, 0] {
            for y in top..=bottom {
                img.put_pixel((cx + dx) as u32, y, FG);
            }
        }
    }
    // Sentinel blobs at col 2 ('A') and col 4 ('B').
    for col in [2usize, 4] {
        let cx = (geom.origin_x + col as f64 * geom.pitch).round() as i64;
        let half = (geom.pitch * 0.22) as i64;
        for y in top..=bottom {
            for dx in -half..=half {
                img.put_pixel((cx + dx) as u32, y, FG);
            }
        }
    }
    // Icon slot at col 3.
    let cx = (geom.origin_x + 3.0 * geom.pitch).round() as i64;
    match icon {
        Some(IconKind::Solid) => {
            let half = (geom.pitch * 0.3) as i64;
            for y in top + 2..=bottom - 2 {
                for dx in -half..=half {
                    img.put_pixel((cx + dx) as u32, y, FG);
                }
            }
        }
        Some(IconKind::FullSpan) => {
            let half = geom.pitch as i64 / 2;
            for y in top..=bottom {
                for dx in -half..half {
                    img.put_pixel((cx + dx) as u32, y, FG);
                }
            }
        }
        None => {}
    }
}

fn draw_page(spec: &PageSpec, geom: Geometry) -> GrayImage {
    let rows = spec.candidates.len() + 1; // + control
    // Generous top/bottom margins mirror a real terminal window: without
    // them, a short canvas lets boundary-bar ink runs cross the 30%
    // structural-line threshold and get suppressed as fake window chrome.
    let h = 64 + u32::try_from(rows).unwrap() * geom.row_stride() + 64;
    let mut img = GrayImage::from_pixel(340, h, BG);
    draw_row(&mut img, &geom, 0, None); // control row | A B |
    for (r, (_, _, kind)) in spec.candidates.iter().enumerate() {
        draw_row(&mut img, &geom, r as u32 + 1, Some(*kind));
    }
    img
}

fn extra(block: Block, codepoint: u32) -> Candidate {
    Candidate {
        id: id_for(block, codepoint),
        codepoint,
        block,
        fallback: "*",
    }
}

/// The catalog, and icons of blocks that it does not hold.
fn catalog() -> Vec<Candidate> {
    let mut all = candidates();
    all.push(extra(Block::GeometricShapes, 0x25B2));
    all.push(extra(Block::MiscSymbols, 0x2605));
    all.push(extra(Block::Dingbats, 0x2702));
    all
}

fn catalog_id(codepoint: u32) -> String {
    catalog()
        .iter()
        .find(|c| c.codepoint == codepoint)
        .unwrap()
        .id
        .clone()
}

fn sidecar(pages: &[PageSpec]) -> Sidecar {
    let mut rows = Vec::new();
    for (p, page) in pages.iter().enumerate() {
        rows.push(RowEntry::Control {
            page: p as u32,
            page_row: 0,
        });
        for (ri, (cp, block, _)) in page.candidates.iter().enumerate() {
            rows.push(RowEntry::Candidate {
                id: catalog_id(*cp),
                codepoint: *cp,
                block: *block,
                page: p as u32,
                page_row: ri as u16 + 1,
                expected_end_col: 8,
            });
        }
    }
    Sidecar {
        schema_version: 1,
        platform: "test/platform".into(),
        host: "xterm".into(),
        pass1_support: true,
        pass1_method: "batched-dsr".into(),
        page_rows: 24,
        pages: pages.len() as u32,
        rows,
    }
}

fn manifest_text(ids: &[&str]) -> String {
    let mut src = String::from("// @generated by manifest-gen\n");
    for id in ids {
        src.push_str(&format!(
            "pub const PLACEHOLDER: crate::IconEntry = crate::IconEntry {{ id: \"{id}\" }};\n"
        ));
    }
    src
}

fn names() -> HashMap<u32, String> {
    let text: String = [
        (0x2500, "BOX DRAWINGS LIGHT HORIZONTAL"),
        (0x2502, "BOX DRAWINGS LIGHT VERTICAL"),
        (0x25B2, "BLACK UP-POINTING TRIANGLE"),
        (0x2605, "BLACK STAR"),
    ]
    .iter()
    .map(|(cp, name)| format!("{cp:04X};{name};Sm;0;ON;;;;;N;;;;;\n"))
    .collect();
    load_ucd_names(&text).0
}

fn labels() -> Vec<String> {
    vec!["macos".into(), "windows".into(), "linux".into()]
}

/// A whole export of the pages, rendered by every platform.
fn export(
    labels: &[String],
    manifest: &str,
    sidecars: &[Sidecar],
    pages: &[PageSpec],
) -> Result<Export, GridError> {
    let catalog = catalog();
    let mut job = Job::new(&catalog, labels, manifest, "manifest.rs")?;
    let borrowed: Vec<&Sidecar> = sidecars.iter().collect();
    job.check_captures(&catalog, &borrowed)?;
    for (platform, sc) in sidecars.iter().enumerate() {
        for (p, page) in pages.iter().enumerate() {
            let gray = draw_page(page, GEOMS[platform]);
            job.take_page(p as u32, &gray, true, sc, platform)
                .expect("fixture page must be usable");
        }
    }
    job.finish(&catalog, &names())
}

fn export_pages(pages: &[PageSpec], ids: &[&str]) -> Result<Export, GridError> {
    let sidecars: Vec<Sidecar> = (0..3).map(|_| sidecar(pages)).collect();
    export(&labels(), &manifest_text(ids), &sidecars, pages)
}

fn solid(cp: u32, block: Block) -> (u32, Block, IconKind) {
    (cp, block, IconKind::Solid)
}

/// Two pages spanning three blocks: box_drawing, geometric_shapes,
/// misc_symbols, exercising ordering and block-separator layout.
fn fixture_pages() -> Vec<PageSpec> {
    vec![
        PageSpec {
            candidates: vec![solid(0x2502, Block::BoxDrawing)],
        },
        PageSpec {
            candidates: vec![
                solid(0x2500, Block::BoxDrawing),
                solid(0x2605, Block::MiscSymbols),
                solid(0x25B2, Block::GeometricShapes),
            ],
        },
    ]
}

#[test]
fn happy_path_dims_order_names_and_matrix_columns() {
    let pages = fixture_pages();
    let out = export_pages(
        &pages,
        &["box_2502", "box_2500", "misc_2605", "geometric_25B2"],
    )
    .expect("export succeeds");

    let index = &out.index;
    assert_eq!(index.schema_version, 4);
    assert_eq!(index.columns, 16);
    let order: Vec<&str> = (0..3).map(platform_label).collect();
    assert_eq!(order, ["macos", "windows", "linux"]);
    let tiles = &index.tiles;
    assert_eq!(tiles.len(), 4);
    // Sorted by (block order, codepoint): box_drawing < geometric < misc.
    let ids: Vec<&str> = tiles.iter().map(|t| t.id.as_str()).collect();
    assert_eq!(ids, ["box_2500", "box_2502", "geometric_25B2", "misc_2605"]);
    assert_eq!(tiles[0].unicode_name, "BOX DRAWINGS LIGHT HORIZONTAL");
    assert_eq!(tiles[3].unicode_name, "BLACK STAR");
    let matrix_col: BTreeMap<&str, usize> = ["linux", "macos", "windows"]
        .iter()
        .map(|l| (*l, platform_index(l).unwrap()))
        .collect();
    assert_eq!(
        matrix_col,
        BTreeMap::from([("linux", 2), ("macos", 0), ("windows", 1)])
    );

    // Slot geometry must agree with the actual canvases.
    let cw = index.cell_width_px;
    let ch = index.cell_height_px;
    assert!(cw > 2 && ch > 2, "{cw}x{ch}");
    assert_eq!((out.matrix.width, out.matrix.height), (3 * cw, 4 * ch));
    assert_eq!(out.grid.width, (GRID_COLUMNS as u32) * cw);
    // Blocks change twice ⇒ two blank separator rows: 1 + 2 + 2 rows.
    assert_eq!(out.grid.height, 5 * ch);
    // Placement bookkeeping matches the canvases.
    assert_eq!(tiles[0].grid_row, 0);
    assert_eq!(tiles[1].grid_col, 1);
    assert_eq!(tiles[2].grid_row, 2);
    assert_eq!(tiles[3].grid_row, 4);

    // Specimen chart (schema v4): three platforms per cell, named
    // block headers, explicit visual coordinates from the band walk.
    assert_eq!(index.specimen_columns, 3);
    let catalog = &out.sheet;
    assert!(
        (400..=520).contains(&catalog.width),
        "specimen width {} outside font-repo range",
        catalog.width
    );

    // Band walk: legend(13) + headers(22 each) + tile rows(cell_h each).
    // Fixture spans three blocks ⇒ three header bands.
    // Tallest fixture native cell = WINDOWS_GEOM.cell_h (24) ⇒ zoomed
    // 48; specimen cell height = 48 + gap 6 + label 14 + pad 10 = 78.
    let spec_cell_h = 78u64;
    let headers: BTreeMap<String, String> = index
        .block_header_rows
        .iter()
        .map(|h| {
            (
                h.canvas_row.to_string(),
                block_display_name(h.block).to_string(),
            )
        })
        .collect();
    assert_eq!(
        headers,
        BTreeMap::from([
            ("1".to_string(), "BOX DRAWING".to_string()),
            ("3".to_string(), "GEOMETRIC SHAPES".to_string()),
            ("5".to_string(), "MISC SYMBOLS".to_string()),
        ]),
        "\nindex was:\n{:?}",
        index
    );
    // tiles[0,1] → BOX DRAWING row; tiles[2] geometric; tiles[3] misc.
    let rows: Vec<usize> = tiles.iter().map(|t| t.canvas_row).collect();
    assert_eq!(rows, [2, 2, 4, 6], "\nindex:\n{:?}", index);
    let pys: Vec<u64> = tiles.iter().map(|t| u64::from(t.pixel_y)).collect();
    assert_eq!(
        pys,
        [
            LEGEND_BAND_H as u64 + HEADER_BAND_H as u64,
            LEGEND_BAND_H as u64 + HEADER_BAND_H as u64,
            LEGEND_BAND_H as u64 + HEADER_BAND_H as u64 + spec_cell_h + HEADER_BAND_H as u64,
            LEGEND_BAND_H as u64
                + HEADER_BAND_H as u64
                + spec_cell_h
                + HEADER_BAND_H as u64
                + spec_cell_h
                + HEADER_BAND_H as u64,
        ],
        "\nindex:\n{:?}",
        index
    );
    assert_eq!(tiles[0].specimen_col, 0);
    assert_eq!(tiles[1].specimen_col, 1);
    // Canvas height: legend + per-block (header band + tile row).
    // Fixture blocks hold 2/1/1 tiles ⇒ one tile row each at cols=3.
    assert_eq!(
        catalog.height as u64,
        LEGEND_BAND_H as u64 + 3 * (HEADER_BAND_H as u64 + spec_cell_h)
    );
}

/// A block run LONGER than one specimen row must wrap onto new rows
/// without re-rendering its first row.
#[test]
fn long_block_run_wraps_without_duplicates() {
    // 7 BoxDrawing candidates ⇒ chunks of 3/3/1 at specimen_cols = 3.
    let pages = vec![PageSpec {
        candidates: (0x2500u32..=0x2506)
            .map(|cp| (cp, Block::BoxDrawing, IconKind::FullSpan))
            .collect(),
    }];
    let out = export_pages(
        &pages,
        &[
            "box_2500", "box_2501", "box_2502", "box_2503", "box_2504", "box_2505", "box_2506",
        ],
    )
    .unwrap();

    let index = &out.index;
    assert_eq!(index.schema_version, 4);
    let tiles = &index.tiles;
    assert_eq!(tiles.len(), 7, "every target rendered exactly once");
    let ids: Vec<&str> = tiles.iter().map(|t| t.id.as_str()).collect();
    assert_eq!(
        ids,
        ["box_2500", "box_2501", "box_2502", "box_2503", "box_2504", "box_2505", "box_2506"],
        "no duplicates; codepoint order preserved across wrapped rows"
    );
    // The first tile of row 2 is the FOURTH codepoint.
    assert_eq!(tiles[3].id, "box_2503");
    let cols_seq: Vec<usize> = tiles.iter().map(|t| t.specimen_col).collect();
    assert_eq!(cols_seq, [0, 1, 2, 0, 1, 2, 0]);
    let rows_seq: Vec<usize> = tiles.iter().map(|t| t.canvas_row).collect();
    assert_eq!(rows_seq, [2, 2, 2, 3, 3, 3, 4]);
    // Same block ⇒ consecutive rows, no separators between chunks.

    // Specimen cell height from fixture metrics: tallest native cell is
    // WINDOWS_GEOM.cell_h = 24 ⇒ zoomed 48; + gap 6 + label 14 + pad 10.
    let spec_cell_h = 78u64;
    let pys: Vec<u64> = tiles.iter().map(|t| u64::from(t.pixel_y)).collect();
    // Rows hold 3/3/1 tiles; each row starts one spec_cell_h after the
    // previous, following the single header band.
    let r0 = LEGEND_BAND_H as u64 + HEADER_BAND_H as u64;
    let expected_pys = [
        r0,
        r0,
        r0,
        r0 + spec_cell_h,
        r0 + spec_cell_h,
        r0 + spec_cell_h,
        r0 + 2 * spec_cell_h,
    ];
    assert_eq!(pys, expected_pys);

    // Pixel-level anti-duplication: each label strip encodes its own id,
    // so identical strips would mean duplicate renders.
    let catalog = &out.sheet;
    let col_w = catalog.width / 3;
    let mut label_strips: Vec<Vec<u8>> = Vec::new();
    for t in tiles {
        // Tallest zoomed glyph band = WINDOWS native cell_h 24 ×2.
        let py = t.pixel_y + SPECIMEN_PAD_Y + 48 + SPECIMEN_LABEL_GAP;
        // Sample the FULL centred label: clipping it would leave only
        // the shared `U+25…` prefix and mask id differences.
        let lx = t.specimen_col as u32 * col_w + (col_w - text_width(6, LABEL_SCALE)) / 2;
        let mut strip: Vec<u8> = Vec::new();
        for y in py..py + FONT_H * LABEL_SCALE {
            for x in lx..lx + text_width(6, LABEL_SCALE) {
                strip.push(catalog.get_pixel(x, y).0);
            }
        }
        label_strips.push(strip);
    }
    for (i, a) in label_strips.iter().enumerate() {
        for (j, b) in label_strips.iter().enumerate().skip(i + 1) {
            assert_ne!(a, b, "tiles {i} and {j} rendered identical pixels");
        }
    }
}

/// Zoomed width of the widest platform crop in the specimen chart
/// (windows FullSpan native 22 px × LABEL_SCALE).
fn glyph_w_for_specimen() -> u32 {
    22 * LABEL_SCALE
}

/// Specimen chart basics on a single-tile export: all three platform
/// renders present in their ordered slots, M/W/L legend across every
/// column, named block header band drawn.
#[test]
fn catalog_cells_show_all_three_platforms_with_legend() {
    let pages = vec![PageSpec {
        candidates: vec![(0x2588, Block::BlockElements, IconKind::FullSpan)],
    }];
    let out = export_pages(&pages, &["block_2588"]).unwrap();

    let index = &out.index;
    assert_eq!(index.schema_version, 4);
    assert_eq!(index.specimen_columns, 3);
    assert_eq!(index.block_header_rows.len(), 1);
    assert_eq!(index.block_header_rows[0].canvas_row, 1);
    assert_eq!(
        block_display_name(index.block_header_rows[0].block),
        "BLOCK ELEMENTS"
    );
    let tile = &index.tiles[0];
    assert_eq!(tile.canvas_row, 2);
    assert_eq!(tile.pixel_y, LEGEND_BAND_H + HEADER_BAND_H);
    assert_eq!(tile.specimen_col, 0);

    let catalog = &out.sheet;

    // Platform slots by pitch: macOS 28px < Linux 36px < Windows 44px
    // of ink (FullSpan zoomed ×LABEL_SCALE), left → right.
    let mut widths = Vec::new();
    for p in 0..3usize {
        let x0 = SPECIMEN_PAD_X + p as u32 * (glyph_w_for_specimen() + INNER_GAP);
        let mut min_x = None;
        let mut max_x = None;
        let top = tile.pixel_y + SPECIMEN_PAD_Y;
        for y in top..top + 48 {
            for dx in 0..glyph_w_for_specimen() {
                if catalog.get_pixel(x0 + dx, y).0 > 128 {
                    min_x = Some(min_x.map_or(dx, |v: u32| v.min(dx)));
                    max_x = Some(max_x.map_or(dx, |v: u32| v.max(dx)));
                }
            }
        }
        widths.push(max_x.unwrap() - min_x.unwrap() + 1);
    }
    assert_eq!(widths, vec![28, 44, 36], "slots follow PLATFORM_ORDER");

    // Legend letters M/W/L over every column's three slots.
    let col_w = catalog.width / 3;
    for c in 0..3usize {
        for p in 0..3usize {
            let lx = c as u32 * col_w
                + SPECIMEN_PAD_X
                + p as u32 * (glyph_w_for_specimen() + INNER_GAP)
                + (glyph_w_for_specimen().saturating_sub(FONT_W)) / 2;
            let mut strip: Vec<u8> = Vec::new();
            for y in 0..LEGEND_BAND_H {
                for x in lx..lx + FONT_W {
                    strip.push(catalog.get_pixel(x, y).0);
                }
            }
            assert!(
                strip.iter().any(|v| *v > 128),
                "legend letter missing at column {c} platform {p}"
            );
        }
    }

    // Header band carries rendered text.
    let mut strip: Vec<u8> = Vec::new();
    for y in LEGEND_BAND_H..LEGEND_BAND_H + HEADER_BAND_H {
        for x in SPECIMEN_PAD_X..SPECIMEN_PAD_X + 60 {
            strip.push(catalog.get_pixel(x, y).0);
        }
    }
    assert!(
        strip.iter().any(|v| *v > 128),
        "block header band must contain rendered text"
    );
}

#[test]
fn manifest_filters_the_rendered_set() {
    let pages = fixture_pages();
    let out = export_pages(&pages, &["misc_2605"]).unwrap();
    let tiles = &out.index.tiles;
    assert_eq!(tiles.len(), 1);
    assert_eq!(tiles[0].id, "misc_2605");
}

#[test]
fn unknown_manifest_id_is_rejected() {
    let pages = fixture_pages();
    let err = export_pages(&pages, &["box_2502", "zzz_9999"]).unwrap_err();
    assert!(matches!(&err, GridError::UnknownId { id } if id == "zzz_9999"));
    assert_eq!(
        err.message(),
        "manifest id 'zzz_9999' is not present in the icon catalog"
    );
}

#[test]
fn manifest_id_absent_from_captures_is_rejected() {
    let pages = fixture_pages();
    let err = export_pages(&pages, &["box_2502", "dingbat_2702"]).unwrap_err();
    assert!(matches!(&err, GridError::AbsentId { id } if id == "dingbat_2702"));
}

#[test]
fn empty_manifest_is_rejected() {
    let pages = fixture_pages();
    let sidecars: Vec<Sidecar> = (0..3).map(|_| sidecar(&pages)).collect();
    let err = export(&labels(), "// nothing\n", &sidecars, &pages).unwrap_err();
    assert!(matches!(&err, GridError::EmptyManifest { path } if path == "manifest.rs"));
    assert_eq!(
        err.message(),
        "manifest manifest.rs lists no icon ids — refusing to render an empty set"
    );
}

#[test]
fn sidecar_skew_between_platforms_is_rejected() {
    let pages = fixture_pages();
    let mut sidecars: Vec<Sidecar> = (0..3).map(|_| sidecar(&pages)).collect();
    // Corrupt windows' sidecar with one extra candidate row.
    sidecars[1].rows.push(RowEntry::Candidate {
        id: "ascii_0021".into(),
        codepoint: 33,
        block: Block::Ascii,
        page: 0,
        page_row: 9,
        expected_end_col: 8,
    });
    let err = export(&labels(), &manifest_text(&["box_2502"]), &sidecars, &pages).unwrap_err();
    assert!(matches!(err, GridError::Skew { platform: 1 }));
    assert_eq!(
        err.message(),
        "sidecar candidate sequence for 'windows' differs from 'linux'"
    );
}

#[test]
fn wrong_page_count_is_rejected() {
    let pages = fixture_pages();
    let sc = sidecar(&pages);
    // Page 1 is missing.
    let names = ["shot_page_0.png".to_string()];
    let err = order_pages(&names, sc.pages).unwrap_err();
    assert!(matches!(
        err,
        PageError::Count {
            expected: 2,
            found: 1
        }
    ));
}

#[test]
fn invalid_platform_labels_are_rejected() {
    let pages = fixture_pages();
    let sidecars: Vec<Sidecar> = (0..3).map(|_| sidecar(&pages)).collect();
    let manifest = manifest_text(&["box_2502"]);

    let mut inputs = labels();
    inputs.truncate(2);
    assert!(matches!(
        export(&inputs, &manifest, &sidecars, &pages),
        Err(GridError::InputCount { found: 2 })
    ));

    let mut inputs = labels();
    inputs[0] = "plan9".into();
    assert!(matches!(
        export(&inputs, &manifest, &sidecars, &pages),
        Err(GridError::UnknownLabel { .. })
    ));

    let mut inputs = labels();
    inputs[1] = "linux".into(); // duplicate
    assert!(matches!(
        export(&inputs, &manifest, &sidecars, &pages),
        Err(GridError::DuplicateLabel { .. })
    ));
}

#[test]
fn clamp_crop_never_panics_at_canvas_edges() {
    let img = GrayImage::from_pixel(10, 8, 5);
    let crop = clamp_crop(
        &img,
        CellBox {
            left: 8,
            top: 6,
            right: 20,
            bottom: 30,
        },
    );
    assert_eq!((crop.width, crop.height), (2, 2));
    assert_eq!(crop.get_pixel(1, 1), (5, 5, 5));
}

#[test]
fn full_cell_crops_keep_edge_ink_of_full_width_glyphs() {
    // Display crops must span the entire cell and retain ink at both
    // extreme columns.
    let pages = vec![PageSpec {
        candidates: vec![(0x2588, Block::BlockElements, IconKind::FullSpan)],
    }];
    let gray = draw_page(&pages[0], LINUX_GEOM);
    let model = model_of(&gray);
    assert_eq!(model.delta, 60);
    let clean = suppress_structural_lines(&gray, &model);
    let sc = sidecar(&pages);
    let rows = sc.rows_for_page(0);
    let (cal, bands) =
        page_geometry(&clean, &model, &rows).expect("fixture page must calibrate");

    let full = cal.cell_box_full(3, &bands[1]);
    let crop = clamp_crop(&gray, full);
    assert!(crop.width >= 2 && crop.height >= 2);
    let mid = crop.height / 2;
    assert!(
        crop.get_pixel(0, mid).0 > 128,
        "leftmost display column lost its ink"
    );
    assert!(
        crop.get_pixel(crop.width - 1, mid).0 > 128,
        "rightmost display column lost its ink"
    );

    // The assertion window would NOT have covered the edges:
    let inner = cal.cell_box(3, &bands[1]);
    assert!(inner.left > full.left || inner.right < full.right);
}

#[test]
fn repeated_exports_are_byte_identical() {
    let pages = fixture_pages();
    let ids = ["box_2502", "box_2500", "misc_2605", "geometric_25B2"];
    let a = export_pages(&pages, &ids).unwrap();
    let b = export_pages(&pages, &ids).unwrap();
    assert_eq!(a.grid.data, b.grid.data, "grid must be byte-deterministic");
    assert_eq!(
        a.matrix.data, b.matrix.data,
        "matrix must be byte-deterministic"
    );
    assert_eq!(a.sheet.data, b.sheet.data, "sheet must be byte-deterministic");
    assert_eq!(
        format!("{:?}", a.index),
        format!("{:?}", b.index),
        "index must be deterministic"
    );
}

#[test]
fn manifests_are_sets() {
    let catalog = catalog();
    let a = manifest_text(&["box_2502", "misc_2605", "box_2500"]);
    let b = manifest_text(&["box_2500", "box_2502", "misc_2605", "box_2500"]);
    let one = Job::new(&catalog, &labels(), &a, "a.rs").unwrap();
    let two = Job::new(&catalog, &labels(), &b, "b.rs").unwrap();
    assert_eq!(one.targets, two.targets);
    let ids: Vec<&str> = one.targets.iter().map(|k| catalog[*k].id.as_str()).collect();
    assert_eq!(ids, ["box_2500", "box_2502", "misc_2605"]);
}

#[test]
fn refused_pages_add_nothing() {
    let pages = fixture_pages();
    let catalog = catalog();
    let sc = sidecar(&pages);
    let text = manifest_text(&["box_2502"]);
    let mut job = Job::new(&catalog, &labels(), &text, "manifest.rs").unwrap();
    let gray = draw_page(&pages[0], LINUX_GEOM);
    assert_eq!(
        job.take_page(0, &gray, false, &sc, 2),
        Err(CaptureError::Implausible)
    );
    let blank = GrayImage::from_pixel(340, 200, BG);
    assert_eq!(
        job.take_page(0, &blank, true, &sc, 2),
        Err(CaptureError::Geometry(GeometryError::BandMismatch {
            found: 0,
            expected: 2
        }))
    );
    assert!(job.crops.is_empty());
    assert!(matches!(
        job.finish(&catalog, &names()),
        Err(GridError::NoCrops)
    ));
    assert_eq!(
        GridError::NoCrops.message(),
        "no crops extracted — manifest ids and captures disagree"
    );
    assert_eq!(job.take_page(0, &gray, true, &sc, 2), Ok(()));
    assert_eq!(job.crops.len(), 1);
    assert!(matches!(
        job.finish(&catalog, &names()),
        Err(GridError::MissingCrop { platform: 0, .. })
    ));
}

fn flat_crop(platform: usize, id: &str, v: u8) -> Crop {
    Crop {
        platform,
        id: id.into(),
        image: RgbImage::from_pixel(1, 1, (v, v, v)),
    }
}

#[test]
fn later_crops_replace_earlier_ones() {
    let mut crops = Vec::new();
    put_crop(&mut crops, flat_crop(0, "a", 1));
    put_crop(&mut crops, flat_crop(1, "a", 2));
    put_crop(&mut crops, flat_crop(0, "a", 3));
    assert_eq!(crops.len(), 2);
    assert_eq!(crops[find_crop(&crops, 0, "a")].image.get_pixel(0, 0).0, 3);
    assert_eq!(crops[find_crop(&crops, 1, "a")].image.get_pixel(0, 0).0, 2);
    assert_eq!(find_crop(&crops, 2, "a"), 2);
}

#[test]
fn sheets_show_doubled_crops() {
    let c = extra(Block::MiscSymbols, 0x2605);
    let mut image = RgbImage::from_pixel(2, 1, (0, 0, 0));
    image.put_pixel(1, 0, (7, 8, 9));
    let crops: Vec<Crop> = (0..3)
        .map(|platform| Crop {
            platform,
            id: c.id.clone(),
            image: image.clone(),
        })
        .collect();
    let out = compose(&[&c], &crops, &names()).unwrap();
    let m = metrics(2, 1);
    assert_eq!((m.slot_w, m.slot_h, m.glyph_w, m.glyph_h), (4, 3, 4, 2));
    let y = out.index.tiles[0].pixel_y + SPECIMEN_PAD_Y;
    let x = SPECIMEN_PAD_X;
    for (dx, dy, want) in [
        (0, 0, (0, 0, 0)),
        (1, 1, (0, 0, 0)),
        (2, 0, (7, 8, 9)),
        (3, 1, (7, 8, 9)),
    ] {
        assert_eq!(out.sheet.get_pixel(x + dx, y + dy), want);
    }
    // Grid and matrix show the crop at its native size, one pixel in.
    assert_eq!(out.grid.get_pixel(2, 1), (7, 8, 9));
    assert_eq!(out.matrix.get_pixel(4 + 2, 1), (7, 8, 9));
    assert_eq!(find_name(&names(), 0x2605), "BLACK STAR");
}

#[test]
fn blocks_are_one_blank_row_apart() {
    let b: Vec<Candidate> = vec![
        extra(Block::BoxDrawing, 0x2500),
        extra(Block::BoxDrawing, 0x2501),
        extra(Block::Braille, 0x2801),
    ];
    let refs: Vec<&Candidate> = b.iter().collect();
    let (places, rows) = block_separated_placements(&refs, 2);
    assert_eq!(places, vec![(0, 0, 0), (1, 0, 1), (2, 2, 0)]);
    assert_eq!(rows, 3);
}

#[test]
fn tiles_are_centered() {
    let crop = RgbImage::from_pixel(1, 1, (9, 9, 9));
    let t = tile(&crop, 3, 5);
    assert_eq!((t.width, t.height), (3, 5));
    assert_eq!(t.get_pixel(1, 2), (9, 9, 9));
    assert_eq!(t.data.iter().filter(|v| **v == 9).count(), 3);
}

#[test]
fn inputs_are_label_and_directory() {
    let (label, dir) = parse_input(" Linux = some/dir ").unwrap();
    assert_eq!((label.as_str(), dir.as_str()), ("linux", "some/dir"));
    assert_eq!(
        parse_input("nothing").unwrap_err().message(),
        "bad --grid-input 'nothing': expected label=dir"
    );
}

#[test]
fn page_images_are_ordered_by_number() {
    let names: Vec<String> = ["shot_page_1.png", "notes.txt", "shot_page_0.png"]
        .iter()
        .map(|s| s.to_string())
        .collect();
    assert_eq!(order_pages(&names, 2).unwrap(), vec![2, 0]);
    let gap: Vec<String> = ["shot_page_0.png", "shot_page_2.png"]
        .iter()
        .map(|s| s.to_string())
        .collect();
    let err = order_pages(&gap, 2).unwrap_err();
    assert_eq!(
        err.message(),
        "non-contiguous page numbering at shot_page_2"
    );
    let bad = ["shot_page_x.png".to_string()];
    assert!(matches!(
        order_pages(&bad, 1),
        Err(PageError::Unparseable { .. })
    ));
}

#[test]
fn manifest_line_order_changes_no_byte() {
    let pages = fixture_pages();
    let a = export_pages(&pages, &["box_2502", "box_2500", "misc_2605", "geometric_25B2"]).unwrap();
    let b = export_pages(
        &pages,
        &["geometric_25B2", "misc_2605", "box_2500", "box_2502", "misc_2605"],
    )
    .unwrap();
    assert_eq!(a.grid, b.grid);
    assert_eq!(a.matrix, b.matrix);
    assert_eq!(a.sheet, b.sheet);
    assert_eq!(format!("{:?}", a.index), format!("{:?}", b.index));
    let ids: Vec<&str> = a.index.tiles.iter().map(|t| t.id.as_str()).collect();
    assert_eq!(ids, ["box_2500", "box_2502", "geometric_25B2", "misc_2605"]);
}

#[test]
fn rows_past_the_page_matter_only_where_they_are_cut() {
    let row = RowEntry::Candidate {
        id: "box_2502".into(),
        codepoint: 0x2502,
        block: Block::BoxDrawing,
        page: 0,
        page_row: 9,
        expected_end_col: 8,
    };
    let control = RowEntry::Control {
        page: 0,
        page_row: 0,
    };
    let rows = [&control, &row];
    let gray = draw_page(&fixture_pages()[0], LINUX_GEOM);
    let blank = GrayImage::from_pixel(340, 200, BG);
    let wanted = vec!["box_2502".to_string()];
    assert!(!crops_fit_page(&gray, &rows, &wanted));
    assert!(crops_fit_page(&gray, &rows, &["box_2500".to_string()]));
    assert!(crops_fit_page(&blank, &rows, &wanted));
}

#[test]
fn zooming_doubles_every_pixel() {
    let mut img = RgbImage::from_pixel(3, 2, (1, 2, 3));
    img.put_pixel(2, 1, (200, 100, 50));
    let big = zoom(&img);
    assert_eq!((big.width, big.height), (6, 4));
    for y in 0..4 {
        for x in 0..6 {
            assert_eq!(big.get_pixel(x, y), img.get_pixel(x / 2, y / 2), "({x}, {y})");
        }
    }
}

#[test]
fn long_crops_can_be_zoomed() {
    let img = RgbImage::from_pixel(0x40_0001, 1, (9, 9, 9));
    let big = zoom(&img);
    assert_eq!((big.width, big.height), (0x80_0002, 2));
    assert_eq!(big.get_pixel(0x80_0001, 1), (9, 9, 9));
}

#[test]
fn specimens_are_centered_in_their_slots() {
    let m = metrics(10, 8);
    let mut canvas = RgbImage::from_pixel(m.cell_w, m.cell_h, (0, 0, 0));
    let specimen = RgbImage::from_pixel(6, 4, (255, 255, 255));
    place_specimen(&mut canvas, &specimen, &m, 0, 0, 1);
    let left = SPECIMEN_PAD_X + m.glyph_w + INNER_GAP + (m.glyph_w - 6) / 2;
    let top = SPECIMEN_PAD_Y + (m.glyph_h - 4) / 2;
    let mut lit = Vec::new();
    for y in 0..m.cell_h {
        for x in 0..m.cell_w {
            if canvas.get_pixel(x, y).0 == 255 {
                lit.push((x, y));
            }
        }
    }
    assert_eq!(lit.len(), 24);
    assert_eq!(lit[0], (left, top));
    assert_eq!(lit[23], (left + 5, top + 3));
}
