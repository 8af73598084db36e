use term_icon::catalog::Block;
use term_icon::checks::{
    check_bleed, check_visibility, crop_mask, BleedVerdict, InvisibleReason, Thresholds,
};
use term_icon::geom::{round_px, Band, Calibration, CellBox, FgModel};
use term_icon::raster::GrayImage;

const BG: u8 = 10;
const FG: u8 = 220;

struct Canvas {
    img: GrayImage,
    model: FgModel,
}

impl Canvas {
    fn new(w: u32, h: u32) -> Self {
        Self {
            img: GrayImage::from_pixel(w, h, BG),
            model: FgModel { bg: BG, delta: 60 },
        }
    }

    fn rect(&mut self, x0: u32, y0: u32, x1: u32, y1: u32, val: u8) {
        for y in y0..=y1 {
            for x in x0..=x1 {
                self.img.put_pixel(x, y, val);
            }
        }
    }

    fn cal(&self, origin_x: u64, pitch: u64) -> Calibration {
        Calibration {
            origin_x,
            pitch,
            unit: 1,
        }
    }
}

#[test]
fn braille_single_dot_passes_adaptive_threshold_and_fails_default() {
    // 8x20 central crop: a single-pixel dot is 0.625%, above the Braille
    // epsilon (0.002) but far below the default (0.02).
    let mut c = Canvas::new(60, 24);
    let band = Band { top: 2, bottom: 21 };
    let cal = c.cal(5, 10);
    let icon = cal.cell_box(3, &band); // center 35 → box 32..39
    c.rect(icon.left + 3, 12, icon.left + 3, 12, FG);

    assert!(check_visibility(
        &c.img,
        &c.model,
        &icon,
        Block::Braille,
        &Thresholds::default()
    )
    .is_ok());
    assert_eq!(
        check_visibility(
            &c.img,
            &c.model,
            &icon,
            Block::Ascii,
            &Thresholds::default()
        ),
        Err(InvisibleReason::Blank)
    );
}

#[test]
fn blank_cell_fails_every_block() {
    let c = Canvas::new(60, 24);
    let band = Band { top: 2, bottom: 21 };
    let cal = c.cal(5, 10);
    let icon = cal.cell_box(3, &band);
    for block in [
        Block::Ascii,
        Block::BoxDrawing,
        Block::BlockElements,
        Block::Braille,
    ] {
        assert_eq!(
            check_visibility(&c.img, &c.model, &icon, block, &Thresholds::default()),
            Err(InvisibleReason::Blank)
        );
    }
}

#[test]
fn tofu_outline_detected_as_invisible() {
    let mut c = Canvas::new(60, 24);
    // Hollow rectangle spanning most of the cell.
    let band = Band { top: 2, bottom: 21 };
    let cal = c.cal(5, 10);
    let icon = cal.cell_box(3, &band);
    let (x0, x1) = (icon.left, icon.right);
    let (y0, y1) = (icon.top + 1, icon.bottom - 1);
    c.rect(x0, y0, x1, y1, FG);
    // Clear everything strictly inside the outline: only the 1 px ring
    // remains as ink.
    c.rect(x0 + 1, y0 + 1, x1 - 1, y1 - 1, BG);
    assert_eq!(
        check_visibility(
            &c.img,
            &c.model,
            &icon,
            Block::BoxDrawing,
            &Thresholds::default()
        ),
        Err(InvisibleReason::TofuBox)
    );
}

#[test]
fn wide_glyph_bleeds_into_gutter() {
    let mut c = Canvas::new(120, 24);
    let band = Band { top: 2, bottom: 21 };
    let cal = c.cal(10, 14);
    // Icon cell centered at col 3 (=52): fill through the gutter into B.
    c.rect(46, 4, 66, 20, FG);
    let reference_b = vec![false; 200];
    assert_eq!(
        check_bleed(
            &c.img,
            &c.model,
            &cal,
            &band,
            &reference_b,
            &Thresholds::default()
        ),
        BleedVerdict::Intrusion
    );
}

#[test]
fn solid_block_filling_own_cell_is_clean() {
    let mut c = Canvas::new(120, 24);
    let band = Band { top: 2, bottom: 21 };
    let cal = c.cal(10, 14);
    // █ fills exactly the central crop region of col 3, stopping before
    // the shared rounded boundary with the gutter.
    let center = cal.cell_center(3);
    let box_l = round_px(20 * center - 7 * cal.pitch, 20);
    let box_r = round_px(20 * center + 7 * cal.pitch, 20);
    c.rect(box_l, 4, box_r.saturating_sub(1), 20, FG);
    let reference_b = vec![false; 200];
    assert_eq!(
        check_bleed(
            &c.img,
            &c.model,
            &cal,
            &band,
            &reference_b,
            &Thresholds::default()
        ),
        BleedVerdict::Clean
    );
}

#[test]
fn lone_braille_rings_are_never_outlines() {
    let mut c = Canvas::new(60, 24);
    let band = Band { top: 2, bottom: 21 };
    let cal = c.cal(5, 10);
    let icon = cal.cell_box(3, &band);
    c.rect(icon.left, icon.top + 1, icon.right, icon.bottom - 1, FG);
    c.rect(
        icon.left + 1,
        icon.top + 2,
        icon.right - 1,
        icon.bottom - 2,
        BG,
    );
    assert!(check_visibility(
        &c.img,
        &c.model,
        &icon,
        Block::Braille,
        &Thresholds::default()
    )
    .is_ok());
}

#[test]
fn solid_glyphs_are_visible() {
    let mut c = Canvas::new(60, 24);
    let band = Band { top: 2, bottom: 21 };
    let cal = c.cal(5, 10);
    let icon = cal.cell_box(3, &band);
    c.rect(icon.left, icon.top, icon.right, icon.bottom, FG);
    assert!(check_visibility(
        &c.img,
        &c.model,
        &icon,
        Block::BlockElements,
        &Thresholds::default()
    )
    .is_ok());
}

#[test]
fn changed_sentinels_are_intrusions() {
    let mut c = Canvas::new(120, 24);
    let band = Band { top: 2, bottom: 21 };
    let cal = c.cal(10, 14);
    let b = cal.cell_box(4, &band);
    let reference = crop_mask(&c.img, &c.model, &b);
    assert_eq!(reference.len(), 11 * 20);
    assert!(reference.iter().all(|ink| !ink));
    let t = Thresholds::default();
    assert_eq!(
        check_bleed(&c.img, &c.model, &cal, &band, &reference, &t),
        BleedVerdict::Clean
    );
    c.rect(b.left + 1, b.top, b.right, b.bottom, FG);
    assert_eq!(
        check_bleed(&c.img, &c.model, &cal, &band, &reference, &t),
        BleedVerdict::Intrusion
    );
}

#[test]
fn the_gutter_begins_right_behind_the_cell() {
    let band = Band { top: 2, bottom: 21 };
    let reference = vec![false; 200];
    let t = Thresholds::default();
    for (x, want) in [
        (58, BleedVerdict::Clean),
        (59, BleedVerdict::Intrusion),
        (60, BleedVerdict::Intrusion),
        (61, BleedVerdict::Clean),
    ] {
        let mut c = Canvas::new(120, 24);
        let cal = c.cal(10, 14);
        assert_eq!(cal.cell_box_full(3, &band).right, 58);
        assert_eq!(cal.cell_box(4, &band).left, 61);
        c.rect(x, 10, x, 10, FG);
        assert_eq!(
            check_bleed(&c.img, &c.model, &cal, &band, &reference, &t),
            want,
            "column {x}"
        );
    }
}

#[test]
fn overflow_toward_a_is_an_intrusion() {
    let band = Band { top: 2, bottom: 21 };
    let reference = vec![false; 200];
    let t = Thresholds::default();
    // A's crop ends at 42.9, the icon's cell begins at 45.
    for (x, want) in [
        (43, BleedVerdict::Clean),
        (44, BleedVerdict::Intrusion),
        (45, BleedVerdict::Clean),
    ] {
        let mut c = Canvas::new(120, 24);
        let cal = c.cal(10, 14);
        c.rect(x, 12, x, 12, FG);
        assert_eq!(
            check_bleed(&c.img, &c.model, &cal, &band, &reference, &t),
            want,
            "column {x}"
        );
    }
}

#[test]
fn open_outlines_are_visible() {
    let icon = CellBox {
        left: 32,
        top: 2,
        right: 39,
        bottom: 21,
    };
    let t = Thresholds::default();
    // A corner stroke has neither a top nor a right edge.
    let mut c = Canvas::new(60, 24);
    c.rect(32, 2, 32, 21, FG);
    c.rect(32, 21, 39, 21, FG);
    let seen = check_visibility(&c.img, &c.model, &icon, Block::BoxDrawing, &t);
    assert_eq!(seen, Ok(()));
    // With all four edges it is a box.
    c.rect(39, 2, 39, 21, FG);
    let seen = check_visibility(&c.img, &c.model, &icon, Block::BoxDrawing, &t);
    assert_eq!(seen, Ok(()));
    c.rect(32, 2, 39, 2, FG);
    let seen = check_visibility(&c.img, &c.model, &icon, Block::BoxDrawing, &t);
    assert_eq!(seen, Err(InvisibleReason::TofuBox));
}

#[test]
fn thresholds_are_per_mille() {
    let t = Thresholds::default();
    assert_eq!(t.eps_default, 20);
    assert_eq!(t.eps_braille, 2);
    assert_eq!(t.bleed_max, 350);
    assert_eq!(t.tofu_bbox_min_ratio, 550);
    assert_eq!(t.tofu_interior_max_ratio, 150);
}
