use term_icon::geom::{
    calibrate, column_clusters, estimate_background, find_text_bands, round_px,
    select_grid_bands, suppress_structural_lines, Band, Calibration, CellBox, FgModel,
    GeometryError,
};
use term_icon::raster::GrayImage;

const MODEL: FgModel = FgModel { bg: 10, delta: 60 };

fn draw_control_row(
    img: &mut GrayImage,
    origin_x: f64,
    pitch: f64,
    top: u32,
    height: u32,
    bg: u8,
    fg: u8,
) {
    let w = img.width;
    for y in top..top + height {
        for x in 0..w {
            img.put_pixel(x, y, bg);
        }
    }
    // Bars at cols 0 and 6 (thin, 2 px wide).
    for col in [0usize, 6] {
        let cx = (origin_x + col as f64 * pitch).round() as i64;
        for dx in [-1i64, 0] {
            let x = cx + dx;
            if x >= 0 && (x as u32) < w {
                for dy in 0..height {
                    img.put_pixel(x as u32, top + dy, fg);
                }
            }
        }
    }
    // 'A' blob at col 2, 'B' blob at col 4 (solid blocks ~40% of cell).
    for col in [2usize, 4] {
        let cx = (origin_x + col as f64 * pitch).round() as i64;
        let half = (pitch * 0.22) as i64;
        for dy in 0..height {
            for dx in -half..=half {
                let x = cx + dx;
                if x >= 0 && (x as u32) < w {
                    img.put_pixel(x as u32, top + dy, fg);
                }
            }
        }
    }
}

fn px(value: u64, unit: u64) -> f64 {
    value as f64 / unit as f64
}

#[test]
fn calibrates_integer_pitch() {
    let mut img = GrayImage::from_pixel(200, 20, 0);
    draw_control_row(&mut img, 12.0, 10.0, 4, 12, 10, 220);
    let cal = calibrate(&img, &MODEL, &Band { top: 4, bottom: 15 }).expect("calibration");
    let (origin_x, pitch) = (px(cal.origin_x, cal.unit), px(cal.pitch, cal.unit));
    assert!((origin_x - 12.0).abs() < 1.0, "{:?}", origin_x);
    assert!((pitch - 10.0).abs() < 1.0, "{:?}", pitch);
}

#[test]
fn fractional_pitch_survives_without_drift() {
    let mut img = GrayImage::from_pixel(300, 24, 0);
    draw_control_row(&mut img, 8.0, 9.33, 6, 14, 10, 220);
    let cal = calibrate(&img, &MODEL, &Band { top: 6, bottom: 19 }).unwrap();
    let pitch = px(cal.pitch, cal.unit);
    assert!((pitch - 9.33).abs() < 0.5, "{:?}", pitch);

    // Boxes of adjacent cells must never overlap each other's centers,
    // no matter how far down the line they sit.
    for col in 1..30u16 {
        let prev_right = cal.cell_box(col - 1, &Band { top: 6, bottom: 19 }).right;
        let next_center = px(cal.cell_center(col), cal.unit).round() as u32;
        assert!(
            prev_right <= next_center,
            "box {col} drifted past neighbour center"
        );
    }
}

#[test]
fn missing_anchors_are_reported() {
    let img = GrayImage::from_pixel(100, 20, 10);
    let band = Band { top: 2, bottom: 10 };
    assert_eq!(
        calibrate(&img, &MODEL, &band),
        Err(GeometryError::MissingBars)
    );
}

#[test]
fn merged_bar_cluster_rejected() {
    // Two wide slabs: clusterable, but far too fat to be boundary bars.
    let mut img = GrayImage::from_pixel(160, 16, 0);
    for y in 0..16 {
        for x in 0..30 {
            img.put_pixel(x, y, 220);
        }
        for x in 100..130 {
            img.put_pixel(x, y, 220);
        }
    }
    let band = Band { top: 0, bottom: 15 };
    assert_eq!(
        calibrate(&img, &MODEL, &band),
        Err(GeometryError::BarsTooWide)
    );
}

/// Draw `rows` text lines of ink height `ink` at pitch `pitch`, plus
/// optional window chrome: a border rectangle, a title-bar slab, and a
/// scrollbar thumb.
fn draw_chrome_capture(
    rows: usize,
    pitch: u32,
    ink: u32,
    border: bool,
    titlebar: bool,
    scrollbar: bool,
) -> GrayImage {
    let h = 40 + rows as u32 * pitch + 30;
    let mut img = GrayImage::from_pixel(400, h, 10);
    for r in 0..rows {
        let top = 40 + r as u32 * pitch;
        for y in top..top + ink {
            for x in 20..60 {
                img.put_pixel(x, y, 220);
            }
        }
    }
    if border {
        for x in 0..400 {
            img.put_pixel(x, 0, 128);
            img.put_pixel(x, h - 1, 128);
        }
        for y in 0..h {
            img.put_pixel(0, y, 128);
            img.put_pixel(399, y, 128);
        }
    }
    if titlebar {
        for y in 4..30 {
            for x in 30..370 {
                img.put_pixel(x, y, 200);
            }
        }
    }
    if scrollbar {
        for y in 35..155 {
            img.put_pixel(390, y, 180);
        }
    }
    img
}

#[test]
fn chrome_is_suppressed_and_rows_survive() {
    let img = draw_chrome_capture(24, 15, 13, true, true, true);
    let clean = suppress_structural_lines(&img, &MODEL);
    let bands = find_text_bands(&clean, &MODEL, 24);
    assert_eq!(bands.len(), 24, "chrome must not merge or add bands");
    // Pitch must be preserved for the grid arithmetic.
    let pitches: Vec<u32> = bands.windows(2).map(|p| p[1].top - p[0].top).collect();
    assert!(pitches.iter().all(|&p| p == 15), "{pitches:?}");
}

#[test]
fn bridged_glyph_rows_found_via_bar_strip() {
    // Full-cell glyph ink that touches across the inter-row gap: whole-row
    // projection would fuse everything, the bar strip must not.
    let mut img = draw_chrome_capture(6, 15, 13, false, false, false);
    for r in 0..6 {
        let top = 40 + r as u32 * 15;
        for y in top..top + 15 {
            for x in 70..90 {
                img.put_pixel(x, y, 220);
            }
        }
    }
    let bands = find_text_bands(&img, &MODEL, 6);
    assert_eq!(bands.len(), 6);
}

/// Display boxes span the full cell, strictly contain their assertion
/// windows, and never overlap the neighbouring cells' display boxes,
/// across integer and fractional pitches alike.
#[test]
fn full_cell_box_contains_assertion_box_without_neighbour_overlap() {
    let band = Band { top: 6, bottom: 19 };
    // Hundredths: 8.0 and 12.7, with pitches 9.33, 14.0 and 22.5.
    for &origin_x in &[800, 1270] {
        for &pitch in &[933, 1400, 2250] {
            let cal = Calibration {
                origin_x,
                pitch,
                unit: 100,
            };
            let prev = cal.cell_box_full(2, &band);
            let full = cal.cell_box_full(3, &band);
            let next = cal.cell_box_full(4, &band);
            let inner = cal.cell_box(3, &band);

            assert!(full.left <= inner.left && full.right >= inner.right);
            assert!(
                full.left > prev.right,
                "left neighbour overlap: {full:?} vs {prev:?}"
            );
            assert!(
                next.left > full.right,
                "right neighbour overlap: {next:?} vs {full:?}"
            );
        }
    }
}

#[test]
fn selection_keeps_most_uniform_run() {
    // Chrome band above the grid, grid, speck below: the consecutive run
    // of 24 with uniform 15px pitch must win.
    let mut bands = vec![Band { top: 2, bottom: 20 }];
    for r in 0..24 {
        let top = 40 + r as u32 * 15;
        bands.push(Band {
            top,
            bottom: top + 12,
        });
    }
    bands.push(Band {
        top: 40 + 24 * 15,
        bottom: 40 + 24 * 15 + 2,
    });
    let sel = select_grid_bands(&bands, 24);
    assert_eq!(sel.len(), 24);
    assert_eq!(sel[0].top, 40);
    let pitches: Vec<u32> = sel.windows(2).map(|p| p[1].top - p[0].top).collect();
    assert!(pitches.iter().all(|&p| p == 15), "{pitches:?}");
    // Fewer bands than expected: returned unchanged, caller fails on count.
    assert_eq!(select_grid_bands(&bands[..23], 24).len(), 23);
}

#[test]
fn cells_are_rounded_half_up() {
    let band = Band { top: 3, bottom: 9 };
    let cal = Calibration {
        origin_x: 10,
        pitch: 14,
        unit: 1,
    };
    assert_eq!(cal.cell_center(3), 52);
    // 52 ± 4.9 and 52 ± 7.
    assert_eq!(
        cal.cell_box(3, &band),
        CellBox {
            left: 47,
            top: 3,
            right: 57,
            bottom: 9
        }
    );
    assert_eq!(
        cal.cell_box_full(3, &band),
        CellBox {
            left: 45,
            top: 3,
            right: 58,
            bottom: 9
        }
    );
    assert_eq!(cal.cell_box(3, &band).area(), 11 * 7);
    // Between 59 and 61.1, and between 42.9 and 45.
    assert_eq!(cal.gutter_span(), (1180, 1222));
    assert_eq!(cal.left_gutter_span(), (858, 900));
    assert_eq!(round_px(5, 2), 3);
    assert_eq!(round_px(4, 3), 1);
}

#[test]
fn background_is_the_most_frequent_value() {
    let mut img = GrayImage::from_pixel(4, 4, 7);
    for x in 0..4 {
        img.put_pixel(x, 0, 200);
    }
    assert_eq!(estimate_background(&img), 7);
}

#[test]
fn cleaning_is_idempotent() {
    let img = draw_chrome_capture(24, 15, 13, true, true, true);
    let once = suppress_structural_lines(&img, &MODEL);
    let twice = suppress_structural_lines(&once, &MODEL);
    assert_eq!(once.data, twice.data);
}

#[test]
fn ink_columns_form_clusters() {
    let mut img = GrayImage::from_pixel(20, 4, 10);
    for x in [2, 3, 9, 10, 11] {
        img.put_pixel(x, 1, 220);
    }
    let band = Band { top: 0, bottom: 3 };
    assert_eq!(column_clusters(&img, &MODEL, &band), vec![(2, 3), (9, 11)]);
}

#[test]
fn implausible_control_rows_are_told_apart() {
    // Bars next to each other: the pitch would be under three pixels.
    let mut img = GrayImage::from_pixel(60, 10, 10);
    for y in 0..10 {
        for x in [5, 8, 11, 14] {
            img.put_pixel(x, y, 220);
        }
    }
    let band = Band { top: 0, bottom: 9 };
    assert_eq!(
        calibrate(&img, &MODEL, &band),
        Err(GeometryError::ImplausiblePitch)
    );
    // Bars with sentinels in the wrong places.
    let mut img = GrayImage::from_pixel(120, 10, 10);
    for y in 0..10 {
        for x in [5, 20, 30, 95] {
            img.put_pixel(x, y, 220);
        }
    }
    assert_eq!(
        calibrate(&img, &MODEL, &band),
        Err(GeometryError::SentinelSpacingMismatch)
    );
}

#[test]
fn extreme_pitches_are_compared_exactly() {
    let at = |top: u32| Band { top, bottom: top };
    // The first two pitches differ by one, the last two by far more.
    let bands = [at(0), at(2_000_000_000), at(4_000_000_001), at(1_705_032_706)];
    let sel = select_grid_bands(&bands, 3);
    assert_eq!((sel[0].top, sel[2].top), (0, 4_000_000_001));
    let even = [at(1), at(0), at(2_000_000_000), at(4_000_000_000)];
    let sel = select_grid_bands(&even, 3);
    assert_eq!((sel[0].top, sel[2].top), (0, 4_000_000_000));
    // One band has no pitch at all: the first one is as good as any.
    assert_eq!(select_grid_bands(&even, 1)[0].top, 1);
}

#[test]
fn background_is_the_brightest_of_the_most_frequent() {
    let mut img = GrayImage::from_pixel(3, 2, 7);
    for x in 0..3 {
        img.put_pixel(x, 1, 9);
    }
    assert_eq!(estimate_background(&img), 9);
    img.put_pixel(0, 1, 7);
    assert_eq!(estimate_background(&img), 7);
}
