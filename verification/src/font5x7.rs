//! Embedded 5×7 bitmap font for specimen-chart labels.
//!
//! The label font holds exactly the characters of `"U+XXXX"` activation labels;
//! beside it stand the three letters of the platform legend. Each glyph is
//! authored as seven 5-character rows (`#` = ink) so the shapes stay
//! human-readable and testable in source form.
use crate::raster::{Pic, Rgb, RgbImage};
use crate::text::chars_of;
use vstd::prelude::*;

verus! {

/// Bitmap column count per glyph.
pub const FONT_W: u32 = 5;

/// Bitmap row count per glyph.
pub const FONT_H: u32 = 7;

/// One glyph: its character, and its rows as `"#####"`-style strings.
#[derive(Clone, Copy, Debug)]
pub struct Glyph {
    /// The character.
    pub ch: char,
    /// The rows, top to bottom.
    pub rows: [&'static str; 7],
}

/// The characters of the label font.
pub open spec fn label_domain() -> Seq<char> {
    " +0123456789ABCDEFU"@
}

/// The rows of a character's glyph, top to bottom.
pub open spec fn glyph_rows(ch: char) -> Option<Seq<Seq<char>>> {
    match ch {
        ' ' => Some(
            seq![
                "....."@,
                "....."@,
                "....."@,
                "....."@,
                "....."@,
                "....."@,
                "....."@,
            ],
        ),
        '+' => Some(
            seq![
                "..#.."@,
                "..#.."@,
                "#####"@,
                "..#.."@,
                "..#.."@,
                "....."@,
                "....."@,
            ],
        ),
        '0' => Some(
            seq![
                ".###."@,
                "#...#"@,
                "#...#"@,
                "#...#"@,
                "#...#"@,
                "#...#"@,
                ".###."@,
            ],
        ),
        '1' => Some(
            seq![
                "..#.."@,
                ".##.."@,
                "..#.."@,
                "..#.."@,
                "..#.."@,
                "..#.."@,
                ".###."@,
            ],
        ),
        '2' => Some(
            seq![
                ".###."@,
                "#...#"@,
                "....#"@,
                "...#."@,
                "..#.."@,
                ".#..."@,
                "#####"@,
            ],
        ),
        '3' => Some(
            seq![
                ".###."@,
                "#...#"@,
                "....#"@,
                "..##."@,
                "....#"@,
                "#...#"@,
                ".###."@,
            ],
        ),
        '4' => Some(
            seq![
                "...#."@,
                "..##."@,
                ".#.#."@,
                "#..#."@,
                "#####"@,
                "...#."@,
                "...#."@,
            ],
        ),
        '5' => Some(
            seq![
                "#####"@,
                "#...."@,
                "####."@,
                "....#"@,
                "....#"@,
                "#...#"@,
                ".###."@,
            ],
        ),
        '6' => Some(
            seq![
                "..##."@,
                ".#..."@,
                "#...."@,
                "####."@,
                "#...#"@,
                "#...#"@,
                ".###."@,
            ],
        ),
        '7' => Some(
            seq![
                "#####"@,
                "....#"@,
                "...#."@,
                "..#.."@,
                ".#..."@,
                ".#..."@,
                ".#..."@,
            ],
        ),
        '8' => Some(
            seq![
                ".###."@,
                "#...#"@,
                "#...#"@,
                ".###."@,
                "#...#"@,
                "#...#"@,
                ".###."@,
            ],
        ),
        '9' => Some(
            seq![
                ".###."@,
                "#...#"@,
                "#...#"@,
                ".####"@,
                "....#"@,
                "...#."@,
                ".##.."@,
            ],
        ),
        'A' => Some(
            seq![
                "..#.."@,
                ".#.#."@,
                "#...#"@,
                "#...#"@,
                "#####"@,
                "#...#"@,
                "#...#"@,
            ],
        ),
        'B' => Some(
            seq![
                "####."@,
                "#...#"@,
                "#...#"@,
                "####."@,
                "#...#"@,
                "#...#"@,
                "####."@,
            ],
        ),
        'C' => Some(
            seq![
                ".###."@,
                "#...#"@,
                "#...."@,
                "#...."@,
                "#...."@,
                "#...#"@,
                ".###."@,
            ],
        ),
        'D' => Some(
            seq![
                "####."@,
                "#...#"@,
                "#...#"@,
                "#...#"@,
                "#...#"@,
                "#...#"@,
                "####."@,
            ],
        ),
        'E' => Some(
            seq![
                "#####"@,
                "#...."@,
                "#...."@,
                "####."@,
                "#...."@,
                "#...."@,
                "#####"@,
            ],
        ),
        'F' => Some(
            seq![
                "#####"@,
                "#...."@,
                "#...."@,
                "####."@,
                "#...."@,
                "#...."@,
                "#...."@,
            ],
        ),
        'U' => Some(
            seq![
                "#...#"@,
                "#...#"@,
                "#...#"@,
                "#...#"@,
                "#...#"@,
                "#...#"@,
                ".###."@,
            ],
        ),
        'L' => Some(
            seq![
                "#...."@,
                "#...."@,
                "#...."@,
                "#...."@,
                "#...."@,
                "#...."@,
                "#####"@,
            ],
        ),
        'M' => Some(
            seq![
                "#...#"@,
                "##.##"@,
                "#.#.#"@,
                "#.#.#"@,
                "#...#"@,
                "#...#"@,
                "#...#"@,
            ],
        ),
        'W' => Some(
            seq![
                "#...#"@,
                "#...#"@,
                "#...#"@,
                "#.#.#"@,
                "#.#.#"@,
                "##.##"@,
                "#...#"@,
            ],
        ),
        _ => None,
    }
}

impl Glyph {
    /// The rows as character sequences.
    pub open spec fn bitmap(self) -> Seq<Seq<char>> {
        Seq::new(7, |i: int| self.rows[i]@)
    }
}

/// Look up a glyph; unknown characters return `None` (rendered as a blank
/// advance by [`draw_text`]).
pub fn glyph(ch: char) -> (g: Option<Glyph>)
    ensures
        match g {
            Some(v) => v.ch == ch && glyph_rows(ch) == Some(v.bitmap()),
            None => glyph_rows(ch) is None,
        },
{
    let rows: [&'static str; 7] = match ch {
        ' ' => [
            ".....",
            ".....",
            ".....",
            ".....",
            ".....",
            ".....",
            ".....",
        ],
        '+' => [
            "..#..",
            "..#..",
            "#####",
            "..#..",
            "..#..",
            ".....",
            ".....",
        ],
        '0' => [
            ".###.",
            "#...#",
            "#...#",
            "#...#",
            "#...#",
            "#...#",
            ".###.",
        ],
        '1' => [
            "..#..",
            ".##..",
            "..#..",
            "..#..",
            "..#..",
            "..#..",
            ".###.",
        ],
        '2' => [
            ".###.",
            "#...#",
            "....#",
            "...#.",
            "..#..",
            ".#...",
            "#####",
        ],
        '3' => [
            ".###.",
            "#...#",
            "....#",
            "..##.",
            "....#",
            "#...#",
            ".###.",
        ],
        '4' => [
            "...#.",
            "..##.",
            ".#.#.",
            "#..#.",
            "#####",
            "...#.",
            "...#.",
        ],
        '5' => [
            "#####",
            "#....",
            "####.",
            "....#",
            "....#",
            "#...#",
            ".###.",
        ],
        '6' => [
            "..##.",
            ".#...",
            "#....",
            "####.",
            "#...#",
            "#...#",
            ".###.",
        ],
        '7' => [
            "#####",
            "....#",
            "...#.",
            "..#..",
            ".#...",
            ".#...",
            ".#...",
        ],
        '8' => [
            ".###.",
            "#...#",
            "#...#",
            ".###.",
            "#...#",
            "#...#",
            ".###.",
        ],
        '9' => [
            ".###.",
            "#...#",
            "#...#",
            ".####",
            "....#",
            "...#.",
            ".##..",
        ],
        'A' => [
            "..#..",
            ".#.#.",
            "#...#",
            "#...#",
            "#####",
            "#...#",
            "#...#",
        ],
        'B' => [
            "####.",
            "#...#",
            "#...#",
            "####.",
            "#...#",
            "#...#",
            "####.",
        ],
        'C' => [
            ".###.",
            "#...#",
            "#....",
            "#....",
            "#....",
            "#...#",
            ".###.",
        ],
        'D' => [
            "####.",
            "#...#",
            "#...#",
            "#...#",
            "#...#",
            "#...#",
            "####.",
        ],
        'E' => [
            "#####",
            "#....",
            "#....",
            "####.",
            "#....",
            "#....",
            "#####",
        ],
        'F' => [
            "#####",
            "#....",
            "#....",
            "####.",
            "#....",
            "#....",
            "#....",
        ],
        'U' => [
            "#...#",
            "#...#",
            "#...#",
            "#...#",
            "#...#",
            "#...#",
            ".###.",
        ],
        'L' => [
            "#....",
            "#....",
            "#....",
            "#....",
            "#....",
            "#....",
            "#####",
        ],
        'M' => [
            "#...#",
            "##.##",
            "#.#.#",
            "#.#.#",
            "#...#",
            "#...#",
            "#...#",
        ],
        'W' => [
            "#...#",
            "#...#",
            "#...#",
            "#.#.#",
            "#.#.#",
            "##.##",
            "#...#",
        ],
        _ => {
            return None;
        },
    };
    let g = Glyph { ch, rows };
    assert(glyph_rows(ch).unwrap() =~= g.bitmap());
    Some(g)
}

/// The label font: the glyphs of the label characters, in order.
pub fn font5x7() -> (font: Vec<Glyph>)
    ensures
        font@.len() == label_domain().len(),
        forall|i: int|
            0 <= i < font@.len() ==> (#[trigger] font@[i]).ch == label_domain()[i] && glyph_rows(
                font@[i].ch,
            ) == Some(font@[i].bitmap()),
{
    let chars = chars_of(" +0123456789ABCDEFU");
    let mut font: Vec<Glyph> = Vec::new();
    proof {
        reveal_strlit(" +0123456789ABCDEFU");
    }
    for i in 0..chars.len()
        invariant
            chars@ == label_domain(),
            forall|j: int|
                0 <= j < chars@.len() ==> glyph_rows(#[trigger] chars@[j]) is Some,
            font@.len() == i,
            forall|j: int|
                0 <= j < i ==> (#[trigger] font@[j]).ch == chars@[j] && glyph_rows(font@[j].ch)
                    == Some(font@[j].bitmap()),
    {
        assert(glyph_rows(chars@[i as int]) is Some);
        if let Some(g) = glyph(chars[i]) {
            font.push(g);
        }
    }
    font
}

/// Rendered width of an `n`-character string at `scale`: n glyphs separated by
/// gaps of one column, without a gap after the last.
pub open spec fn width_of(n: int, scale: int) -> int {
    if n == 0 {
        0
    } else {
        (n * 6 - 1) * scale
    }
}

/// Rendered width of an `n_chars`-character string at `scale`.
pub fn text_width(n_chars: usize, scale: u32) -> (w: u32)
    requires
        n_chars * 6 <= u32::MAX,
        width_of(n_chars as int, scale as int) <= u32::MAX,
    ensures
        w == width_of(n_chars as int, scale as int),
{
    if n_chars == 0 {
        return 0;
    }
    let cols: u32 = n_chars as u32 * 6 - 1;
    cols * scale
}

// ---------------------------------------------------------------------------
// Drawing
// ---------------------------------------------------------------------------
/// The character has ink in bitmap row `ry`, column `rx`.
pub open spec fn glyph_ink(ch: char, rx: int, ry: int) -> bool {
    glyph_rows(ch) matches Some(rows) && 0 <= ry < 7 && 0 <= rx < rows[ry].len() && rows[ry][rx]
        == '#'
}

/// The text has ink at the offset `(dx, dy)` from its top-left corner. Every
/// character advances by six columns, of which its glyph takes the first five.
pub open spec fn text_ink(s: Seq<char>, scale: int, dx: int, dy: int) -> bool {
    let advance = 6 * scale;
    let i = dx / advance;
    &&& scale > 0
    &&& 0 <= dx
    &&& 0 <= dy
    &&& i < s.len()
    &&& glyph_ink(s[i], (dx % advance) / scale, dy / scale)
}

/// `base` with the text drawn on it, top-left corner at `(x, y)`; what sticks
/// out is cut off.
pub open spec fn inscribed(
    base: Pic,
    x: int,
    y: int,
    s: Seq<char>,
    scale: int,
    color: Rgb,
) -> Pic {
    Pic {
        w: base.w,
        h: base.h,
        px: |a: int, b: int|
            if text_ink(s, scale, a - x, b - y) {
                color
            } else {
                base.at(a, b)
            },
    }
}

fn has_ink(ch: char, rx: usize, ry: usize) -> (ink: bool)
    ensures
        ink == glyph_ink(ch, rx as int, ry as int),
{
    match glyph(ch) {
        None => false,
        Some(g) => {
            if ry >= 7 {
                return false;
            }
            let row = chars_of(g.rows[ry]);
            assert(row@ == glyph_rows(ch).unwrap()[ry as int]);
            rx < row.len() && row[rx] == '#'
        },
    }
}

/// First pixel of the clipped range that starts at `at`.
fn clip_low(at: i64, size: u32) -> (lo: u32)
    ensures
        lo <= size,
        lo == (if at <= 0 {
            0
        } else if at >= size {
            size as int
        } else {
            at as int
        }),
{
    if at <= 0 {
        0
    } else if at >= size as i64 {
        size
    } else {
        at as u32
    }
}

/// Draw `s` with its top-left corner at `(x, y)`. Character advance is six
/// columns at any scale, so that a gap keeps adjacent glyphs from colliding.
/// Unknown characters advance blankly.
pub fn draw_text(img: &mut RgbImage, x: i64, y: i64, s: &str, scale: u32, color: Rgb)
    requires
        old(img).wf(),
    ensures
        final(img).shows(
            inscribed(old(img).pic(), x as int, y as int, s@, scale as int, color),
        ),
{
    if scale == 0 {
        return;
    }
    let chars = chars_of(s);
    let advance = 6 * scale as u64;
    let w = img.width;
    let h = img.height;
    let a0 = clip_low(x, w);
    let b0 = clip_low(y, h);
    for b in b0..h
        invariant
            img.wf(),
            img.width == old(img).width == w,
            img.height == old(img).height == h,
            chars@ == s@,
            scale > 0,
            advance == 6 * scale,
            a0 <= w,
            b0 <= h,
            a0 < w ==> a0 >= x,
            b0 < h ==> b0 >= y,
            forall|i: int, j: int|
                0 <= i < w && 0 <= j < h ==> #[trigger] img.at(i, j) == (if b0 <= j < b && a0 <= i
                    && text_ink(s@, scale as int, i - x, j - y) {
                    color
                } else {
                    old(img).at(i, j)
                }),
    {
        for a in a0..w
            invariant
                img.wf(),
                img.width == old(img).width == w,
                img.height == old(img).height == h,
                chars@ == s@,
                scale > 0,
                advance == 6 * scale,
                a0 <= w,
                b0 <= b < h,
                a0 < w ==> a0 >= x,
                b0 >= y,
                forall|i: int, j: int|
                    0 <= i < w && 0 <= j < h ==> #[trigger] img.at(i, j) == (if a0 <= i && ((b0 <= j
                        < b) || (j == b && i < a)) && text_ink(s@, scale as int, i - x, j - y) {
                        color
                    } else {
                        old(img).at(i, j)
                    }),
        {
            let dx = (a as i128 - x as i128) as u64;
            let dy = (b as i128 - y as i128) as u64;
            let i = dx / advance;
            let rx = (dx % advance) / scale as u64;
            let ry = dy / scale as u64;
            assert(rx < 6 && ry <= u64::MAX) by (nonlinear_arith)
                requires
                    advance == 6 * scale,
                    scale > 0,
                    rx == (dx % advance) / (scale as u64),
            ;
            if i < chars.len() as u64 && ry < 7 && has_ink(
                chars[i as usize],
                rx as usize,
                ry as usize,
            ) {
                assert(text_ink(s@, scale as int, a - x, b - y));
                img.put_pixel(a, b, color);
            }
        }
    }
}

// ---------------------------------------------------------------------------
// Laws
// ---------------------------------------------------------------------------
/// Every glyph is seven rows of five columns.
pub proof fn glyphs_are_five_by_seven(ch: char)
    ensures
        glyph_rows(ch) matches Some(rows) ==> rows.len() == FONT_H && forall|r: int|
            0 <= r < rows.len() ==> (#[trigger] rows[r]).len() == FONT_W,
{
    reveal_strlit("#####");
    reveal_strlit("####.");
    reveal_strlit("##.##");
    reveal_strlit("#.#.#");
    reveal_strlit("#..#.");
    reveal_strlit("#...#");
    reveal_strlit("#....");
    reveal_strlit(".####");
    reveal_strlit(".###.");
    reveal_strlit(".##..");
    reveal_strlit(".#.#.");
    reveal_strlit(".#...");
    reveal_strlit("..##.");
    reveal_strlit("..#..");
    reveal_strlit("...#.");
    reveal_strlit("....#");
    reveal_strlit(".....");
}

/// Glyphs never collide: the last of a character's six columns is blank.
pub proof fn gap_columns_are_blank(s: Seq<char>, scale: int, dx: int, dy: int)
    requires
        scale > 0,
        0 <= dx,
        (dx % (6 * scale)) / scale >= 5,
    ensures
        !text_ink(s, scale, dx, dy),
{
    let i = dx / (6 * scale);
    glyphs_are_five_by_seven(s[i]);
}

/// Characters outside the font leave no ink.
pub proof fn unknown_characters_are_blank(s: Seq<char>, scale: int, dx: int, dy: int)
    requires
        glyph_rows(s[dx / (6 * scale)]) is None,
    ensures
        !text_ink(s, scale, dx, dy),
{
}

/// A text is drawn character by character: each has a cell of six columns at the
/// scale, its glyph in the first five, and every bitmap pixel is a square of the
/// scale.
pub proof fn characters_stand_in_cells_of_six(
    s: Seq<char>,
    scale: int,
    i: int,
    x: int,
    y: int,
)
    requires
        0 < scale,
        0 <= i < s.len(),
        0 <= x < 6 * scale,
        0 <= y,
    ensures
        text_ink(s, scale, i * (6 * scale) + x, y) == glyph_ink(s[i], x / scale, y / scale),
{
    let advance = 6 * scale;
    let dx = i * advance + x;
    assert(dx / advance == i && dx % advance == x && dx >= 0) by (nonlinear_arith)
        requires
            dx == i * advance + x,
            0 <= x < advance,
            0 <= i,
    ;
}

/// A text keeps to its box: no ink is left of it, above it, right of its width or
/// below seven rows at the scale.
pub proof fn texts_keep_to_their_box(s: Seq<char>, scale: int, dx: int, dy: int)
    requires
        text_ink(s, scale, dx, dy),
    ensures
        0 < scale,
        0 <= dx < (6 * s.len() - 1) * scale,
        0 <= dx < width_of(s.len() as int, scale),
        0 <= dy < 7 * scale,
{
    let advance = 6 * scale;
    let i = dx / advance;
    glyphs_are_five_by_seven(s[i]);
    let rx = (dx % advance) / scale;
    assert(dx == i * advance + dx % advance && dx % advance < (rx + 1) * scale) by (nonlinear_arith)
        requires
            i == dx / advance,
            rx == (dx % advance) / scale,
            scale > 0,
            advance == 6 * scale,
    ;
    assert(rx <= 4);
    assert((rx + 1) * scale <= 5 * scale) by (nonlinear_arith)
        requires
            rx <= 4,
            scale > 0,
    ;
    assert(i * advance == (6 * i) * scale) by (nonlinear_arith)
        requires
            advance == 6 * scale,
    ;
    assert((6 * i) * scale + 5 * scale == (6 * i + 5) * scale) by (nonlinear_arith);
    assert((6 * i + 5) * scale <= (6 * s.len() - 1) * scale) by (nonlinear_arith)
        requires
            i + 1 <= s.len(),
            scale > 0,
    ;
    assert((s.len() * 6 - 1) * scale == (6 * s.len() - 1) * scale) by (nonlinear_arith);
    let ry = dy / scale;
    assert(dy < (ry + 1) * scale) by (nonlinear_arith)
        requires
            ry == dy / scale,
            scale > 0,
    ;
    assert((ry + 1) * scale <= 7 * scale) by (nonlinear_arith)
        requires
            ry <= 6,
            scale > 0,
    ;
}

/// Drawing a text changes the color where the text has ink, and nothing else.
pub proof fn drawing_changes_the_ink_alone(
    base: Pic,
    x: int,
    y: int,
    s: Seq<char>,
    scale: int,
    color: Rgb,
    a: int,
    b: int,
)
    ensures
        ({
            let p = inscribed(base, x, y, s, scale, color);
            &&& p.w == base.w
            &&& p.h == base.h
            &&& text_ink(s, scale, a - x, b - y) ==> p.at(a, b) == color
            &&& !text_ink(s, scale, a - x, b - y) ==> p.at(a, b) == base.at(a, b)
        }),
{
}

/// The shapes of the glyphs, and how they go together. Some are the same from left
/// to right or from top to bottom, a nine is a six turned around, a `W` an `M` upside
/// down, an eight a zero with a bar, a `B` a `D` with one, and an `F` an `E` without
/// its foot.
pub proof fn glyphs_go_together(x: int, y: int)
    requires
        0 <= x < 5,
        0 <= y < 7,
    ensures
        !glyph_ink(' ', x, y),
        glyph_ink('+', x, y) == glyph_ink('+', 4 - x, y),
        glyph_ink('0', x, y) == glyph_ink('0', 4 - x, y),
        glyph_ink('8', x, y) == glyph_ink('8', 4 - x, y),
        glyph_ink('A', x, y) == glyph_ink('A', 4 - x, y),
        glyph_ink('U', x, y) == glyph_ink('U', 4 - x, y),
        glyph_ink('M', x, y) == glyph_ink('M', 4 - x, y),
        glyph_ink('0', x, y) == glyph_ink('0', x, 6 - y),
        glyph_ink('3', x, y) == glyph_ink('3', x, 6 - y),
        glyph_ink('B', x, y) == glyph_ink('B', x, 6 - y),
        glyph_ink('C', x, y) == glyph_ink('C', x, 6 - y),
        glyph_ink('D', x, y) == glyph_ink('D', x, 6 - y),
        glyph_ink('E', x, y) == glyph_ink('E', x, 6 - y),
        glyph_ink('9', x, y) == glyph_ink('6', 4 - x, 6 - y),
        glyph_ink('W', x, y) == glyph_ink('M', x, 6 - y),
        y != 3 ==> glyph_ink('8', x, y) == glyph_ink('0', x, y),
        y == 3 ==> glyph_ink('8', x, y) == (1 <= x <= 3),
        y != 3 ==> glyph_ink('B', x, y) == glyph_ink('D', x, y),
        y == 3 ==> glyph_ink('B', x, y) == (x <= 3),
        y != 6 ==> glyph_ink('F', x, y) == glyph_ink('E', x, y),
        y == 6 ==> glyph_ink('F', x, y) == (x == 0),
        y != 0 ==> glyph_ink('U', x, y) == glyph_ink('0', x, y),
        y == 0 ==> glyph_ink('U', x, y) == (x == 0 || x == 4),
        glyph_ink('L', x, y) == (x == 0 || y == 6),
        glyph_ink('0', x, y) == ((x == 0 || x == 4) != (y == 0 || y == 6)),
{
    reveal_strlit("#####");
    reveal_strlit("####.");
    reveal_strlit("##.##");
    reveal_strlit("#.#.#");
    reveal_strlit("#..#.");
    reveal_strlit("#...#");
    reveal_strlit("#....");
    reveal_strlit(".####");
    reveal_strlit(".###.");
    reveal_strlit(".##..");
    reveal_strlit(".#.#.");
    reveal_strlit(".#...");
    reveal_strlit("..##.");
    reveal_strlit("..#..");
    reveal_strlit("...#.");
    reveal_strlit("....#");
    reveal_strlit(".....");
}

/// Different characters of the font look different.
pub proof fn glyphs_tell_characters_apart(a: char, b: char)
    requires
        glyph_rows(a) is Some,
        glyph_rows(b) is Some,
        a != b,
    ensures
        glyph_rows(a) != glyph_rows(b),
{
    lemma_fingerprint(a);
    lemma_fingerprint(b);
}

/// The weight of a bitmap pixel that has ink.
spec fn bit(c: char, weight: int) -> int {
    if c == '#' {
        weight
    } else {
        0
    }
}

/// A few pixels of a bitmap, enough to tell the glyphs apart.
spec fn fingerprint(rows: Seq<Seq<char>>) -> int {
    bit(rows[0][0], 1)
        + bit(rows[1][0], 2)
        + bit(rows[3][0], 4)
        + bit(rows[3][2], 8)
        + bit(rows[2][4], 16)
        + bit(rows[6][3], 32)
        + bit(rows[2][0], 64)
        + bit(rows[6][0], 128)
        + bit(rows[1][1], 256)
}

/// The fingerprint of each character.
spec fn mark_of(ch: char) -> int {
    match ch {
        ' ' => 0,
        '+' => 88,
        '0' => 118,
        '1' => 296,
        '2' => 178,
        '3' => 58,
        '4' => 36,
        '5' => 99,
        '6' => 364,
        '7' => 9,
        '8' => 122,
        '9' => 90,
        'A' => 468,
        'B' => 255,
        'C' => 102,
        'D' => 247,
        'E' => 239,
        'F' => 207,
        'U' => 119,
        'L' => 231,
        'M' => 479,
        'W' => 223,
        _ => -1,
    }
}

proof fn lemma_fingerprint(ch: char)
    ensures
        glyph_rows(ch) matches Some(rows) ==> fingerprint(rows) == mark_of(ch),
{
    reveal_strlit("#####");
    reveal_strlit("####.");
    reveal_strlit("##.##");
    reveal_strlit("#.#.#");
    reveal_strlit("#..#.");
    reveal_strlit("#...#");
    reveal_strlit("#....");
    reveal_strlit(".####");
    reveal_strlit(".###.");
    reveal_strlit(".##..");
    reveal_strlit(".#.#.");
    reveal_strlit(".#...");
    reveal_strlit("..##.");
    reveal_strlit("..#..");
    reveal_strlit("...#.");
    reveal_strlit("....#");
    reveal_strlit(".....");
}

} // verus!
