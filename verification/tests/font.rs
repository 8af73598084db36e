use term_icon::font5x7::{draw_text, font5x7, glyph, text_width, FONT_H, FONT_W};
use term_icon::raster::RgbImage;

fn rendered(s: &str, scale: u32) -> RgbImage {
    let w = text_width(s.chars().count(), scale);
    let mut img = RgbImage::from_pixel(w.max(1), FONT_H * scale, (0, 0, 0));
    draw_text(&mut img, 0, 0, s, scale, (200, 200, 200));
    img
}

#[test]
fn font_domain_is_exactly_nineteen_label_glyphs() {
    let font = font5x7();
    assert_eq!(font.len(), 19);
    let mut chars: Vec<char> = font.iter().map(|g| g.ch).collect();
    chars.sort_unstable();
    let mut expected: Vec<char> = vec![' ', '+', 'U'];
    expected.extend('0'..='9');
    expected.extend('A'..='F');
    expected.sort_unstable();
    assert_eq!(chars, expected, "{chars:?}");
    // Every row string is 5 wide, 7 tall.
    for g in font {
        assert_eq!(g.rows.len(), FONT_H as usize);
        assert!(g.rows.iter().all(|r| r.len() == FONT_W as usize));
    }
}

#[test]
fn u_renders_expected_pattern() {
    let img = rendered("U", 1);
    // Top row: #...#, bottom row: .###.
    let ink = |x: u32, y: u32| img.get_pixel(x, y).0 != 0;
    assert!(ink(0, 0) && !ink(1, 0) && ink(4, 0));
    assert!(ink(1, 6) && ink(2, 6) && ink(3, 6));
    assert!(!ink(0, 6) && !ink(4, 6));
}

#[test]
fn stride_leaves_gap_between_adjacent_glyphs() {
    let img = rendered("UU", 2);
    // Advance is 6*scale = 12: glyph ink occupies cols 0..=9, the gap
    // columns 10 and 11 must stay background at every row.
    for y in 0..img.height {
        assert_eq!(img.get_pixel(10, y).0, 0, "gap column 10 blank");
        assert_eq!(img.get_pixel(11, y).0, 0, "gap column 11 blank");
    }
    assert_eq!(img.width, text_width(2, 2), "(2*6-1)*2 = 22");
    assert_eq!(img.width, 22);
}

#[test]
fn unknown_char_advances_blank_without_panic() {
    let img = rendered("U?", 1);
    // '?' contributes only its advance: total width covers 2 chars, but
    // the second slot is entirely background.
    assert_eq!(img.width, text_width(2, 1));
    for y in 0..img.height {
        for x in 6..img.width {
            assert_eq!(img.get_pixel(x, y).0, 0);
        }
    }
}

#[test]
fn text_off_the_canvas_is_clipped() {
    let mut img = RgbImage::from_pixel(4, 4, (0, 0, 0));
    draw_text(&mut img, -2, -2, "U", 1, (9, 9, 9));
    // Column 4 of the glyph lands on column 2 of the canvas.
    assert_eq!(img.get_pixel(2, 0), (9, 9, 9));
    assert_eq!(img.get_pixel(0, 0), (0, 0, 0));
    let before = img.clone();
    draw_text(&mut img, 40, 40, "U", 1, (9, 9, 9));
    assert_eq!(img.data, before.data);
}

#[test]
fn legend_letters_have_glyphs() {
    for c in ['M', 'W', 'L'] {
        assert!(glyph(c).is_some());
    }
    assert!(glyph('?').is_none());
    assert_eq!(text_width(0, 3), 0);
}
