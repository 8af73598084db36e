//! Charts of the verified grid: layout, drawing, and the index that goes with
//! them.
//!
//! * The grid shows the canonical platform's tiles in sixteen columns, in
//!   display order, with one blank slot-row between Unicode blocks.
//! * The matrix has one row per icon and one column per platform.
//! * The specimen sheet shows, per icon, all platforms at twice their size above
//!   the `U+XXXX` label, under a platform legend and named block headers.
//!
//! The index records the position of every icon in all of them.
use crate::catalog::{Block, Candidate};
use crate::depiction::{legend_names_platforms, legends_name_platforms};
use crate::font5x7::{draw_text, inscribed, FONT_H, FONT_W};
use crate::grid::{
    crop_place, crop_places_lie_inside, crops_ok, find_crop, same_crop, same_crops,
    same_crops_same_place, Crop, GridError, GridFault, CANONICAL, PLATFORMS,
};
use crate::raster::{
    flat, images_are_fixed_by_their_picture, laid_over, zoom, zoomed, Pic, Rgb, RgbImage,
};
use crate::text::{hex4, numeral_chars, push_chars, text_of};
use std::collections::HashMap;
use vstd::prelude::*;

verus! {

/// Fixed column count of the grid.
pub const GRID_COLUMNS: usize = 16;

/// Zoom factor of the specimen crops and their labels.
pub const LABEL_SCALE: u32 = 2;

/// Target overall width of the specimen sheet.
pub const SPECIMEN_TARGET_WIDTH: u32 = 480;

/// Horizontal padding of a specimen cell.
pub const SPECIMEN_PAD_X: u32 = 6;

/// Vertical padding of a specimen cell.
pub const SPECIMEN_PAD_Y: u32 = 5;

/// Gap between a specimen and its label.
pub const SPECIMEN_LABEL_GAP: u32 = 6;

/// Gap between the platforms of a specimen cell.
pub const INNER_GAP: u32 = 4;

/// Height of the platform legend strip at the top of the sheet.
pub const LEGEND_BAND_H: u32 = 13;

/// Height of a named block header band.
pub const HEADER_BAND_H: u32 = 22;

/// Width of a `U+XXXX` label.
pub const LABEL_W: u32 = 70;

/// Version of the index schema.
pub const INDEX_VERSION: u32 = 4;

/// Most icons that fit into an image with one row of at least three pixels each.
pub const MAX_TARGETS: usize = 0x5555_5555;

/// Color of all labels.
pub open spec fn label_color() -> Rgb {
    (200u8, 200u8, 200u8)
}

/// Human-readable name of a Unicode block, as drawn in specimen headers.
pub open spec fn block_text(block: Block) -> Seq<char> {
    match block {
        Block::Ascii => "ASCII"@,
        Block::Arrows => "ARROWS"@,
        Block::BoxDrawing => "BOX DRAWING"@,
        Block::BlockElements => "BLOCK ELEMENTS"@,
        Block::GeometricShapes => "GEOMETRIC SHAPES"@,
        Block::MiscSymbols => "MISC SYMBOLS"@,
        Block::Dingbats => "DINGBATS"@,
        Block::Braille => "BRAILLE"@,
    }
}

/// Human-readable name of a Unicode block, as drawn in specimen headers.
pub fn block_display_name(block: Block) -> (s: &'static str)
    ensures
        s@ == block_text(block),
{
    match block {
        Block::Ascii => "ASCII",
        Block::Arrows => "ARROWS",
        Block::BoxDrawing => "BOX DRAWING",
        Block::BlockElements => "BLOCK ELEMENTS",
        Block::GeometricShapes => "GEOMETRIC SHAPES",
        Block::MiscSymbols => "MISC SYMBOLS",
        Block::Dingbats => "DINGBATS",
        Block::Braille => "BRAILLE",
    }
}

/// The blocks of the icons to show.
pub open spec fn blocks_of(targets: Seq<&Candidate>) -> Seq<Block> {
    targets.map_values(|c: &Candidate| c.block)
}

// ---------------------------------------------------------------------------
// Grid placement
// ---------------------------------------------------------------------------
/// Slot `(row, column)` of icon `i` in a grid of `cols` columns: next to the
/// icon before it, on a new row where the row is full, and two rows further
/// where the block changes.
pub open spec fn grid_place(blocks: Seq<Block>, cols: int, i: int) -> (int, int)
    decreases i,
{
    if i <= 0 {
        (0, 0)
    } else {
        let (r, c) = grid_place(blocks, cols, i - 1);
        if blocks[i] != blocks[i - 1] {
            (r + 2, 0)
        } else if c + 1 == cols {
            (r + 1, 0)
        } else {
            (r, c + 1)
        }
    }
}

/// Number of slot-rows of the grid.
pub open spec fn grid_rows(blocks: Seq<Block>, cols: int) -> int {
    if blocks.len() == 0 {
        1
    } else {
        grid_place(blocks, cols, blocks.len() - 1).0 + 1
    }
}

/// Sequential block-separated placement of `targets` into a `cols`-wide canvas:
/// `(tile_index, row, col)` per target plus total row count. A fully blank
/// separator slot-row is inserted whenever the Unicode block changes between
/// consecutive tiles.
pub fn block_separated_placements(targets: &[&Candidate], cols: usize) -> (out: (
    Vec<(usize, usize, usize)>,
    usize,
))
    requires
        0 < cols,
        targets@.len() <= MAX_TARGETS,
    ensures
        out.0@.len() == targets@.len(),
        forall|i: int|
            0 <= i < targets@.len() ==> {
                let p = grid_place(blocks_of(targets@), cols as int, i);
                (#[trigger] out.0@[i]).0 == i && out.0@[i].1 == p.0 && out.0@[i].2 == p.1
            },
        out.1 == grid_rows(blocks_of(targets@), cols as int),
        out.1 <= 2 * targets@.len() + 1,
{
    let ghost blocks = blocks_of(targets@);
    let n = targets.len();
    let mut placements: Vec<(usize, usize, usize)> = Vec::new();
    let mut row: usize = 0;
    let mut col: usize = 0;
    for ti in 0..n
        invariant
            n == targets@.len(),
            blocks == blocks_of(targets@),
            0 < cols,
            n <= MAX_TARGETS,
            placements@.len() == ti,
            ti > 0 ==> row == grid_place(blocks, cols as int, ti - 1).0 && col == grid_place(
                blocks,
                cols as int,
                ti - 1,
            ).1,
            ti == 0 ==> row == 0 && col == 0,
            row <= 2 * ti,
            col < cols,
            forall|i: int|
                0 <= i < ti ==> {
                    let p = grid_place(blocks, cols as int, i);
                    (#[trigger] placements@[i]).0 == i && placements@[i].1 == p.0
                        && placements@[i].2 == p.1
                },
    {
        if ti > 0 {
            assert(blocks[ti as int] == targets@[ti as int].block && blocks[ti - 1] == targets@[ti
                - 1].block);
            if targets[ti].block != targets[ti - 1].block {
                row = row + 2;
                col = 0;
            } else if col + 1 == cols {
                row = row + 1;
                col = 0;
            } else {
                col = col + 1;
            }
        }
        placements.push((ti, row, col));
    }
    let rows = if n == 0 {
        1
    } else {
        row + 1
    };
    (placements, rows)
}

// ---------------------------------------------------------------------------
// Specimen layout
// ---------------------------------------------------------------------------
/// Pixel measures of all charts.
#[derive(Clone, Copy, Debug, PartialEq, Eq, Structural)]
pub struct Metrics {
    /// Width of a grid or matrix slot.
    pub slot_w: u32,
    /// Height of a grid or matrix slot.
    pub slot_h: u32,
    /// Width of a zoomed specimen.
    pub glyph_w: u32,
    /// Height of a zoomed specimen.
    pub glyph_h: u32,
    /// Width of a specimen cell.
    pub cell_w: u32,
    /// Height of a specimen cell.
    pub cell_h: u32,
    /// Specimen cells per row.
    pub cols: usize,
}

/// Measures for crops of at most `w` by `h` pixels: slots with one pixel of
/// padding per side, specimen cells wide enough for all platforms side by side
/// and for the label, and as many of them per row as the target width holds,
/// between three and eight.
pub open spec fn metrics_spec(w: u32, h: u32) -> Metrics {
    let glyph_w = 2 * w;
    let glyph_h = 2 * h;
    let inner = 3 * glyph_w + 2 * INNER_GAP;
    let cell_w = (if inner > LABEL_W {
        inner
    } else {
        LABEL_W as int
    }) + 2 * SPECIMEN_PAD_X;
    let fit = SPECIMEN_TARGET_WIDTH as int / cell_w;
    Metrics {
        slot_w: (w + 2) as u32,
        slot_h: (h + 2) as u32,
        glyph_w: glyph_w as u32,
        glyph_h: glyph_h as u32,
        cell_w: cell_w as u32,
        cell_h: (glyph_h + SPECIMEN_LABEL_GAP + FONT_H * LABEL_SCALE + 2 * SPECIMEN_PAD_Y) as u32,
        cols: (if fit < 3 {
            3
        } else if fit > 8 {
            8
        } else {
            fit
        }) as usize,
    }
}

/// The measures are ones that pixel coordinates can have.
pub open spec fn metrics_fit(w: u32, h: u32) -> bool {
    &&& 6 * w + 2 * INNER_GAP + 2 * SPECIMEN_PAD_X <= u32::MAX
    &&& 2 * h + SPECIMEN_LABEL_GAP + FONT_H * LABEL_SCALE + 2 * SPECIMEN_PAD_Y <= u32::MAX
}

/// Computes the measures.
pub fn metrics(w: u32, h: u32) -> (m: Metrics)
    requires
        metrics_fit(w, h),
    ensures
        m == metrics_spec(w, h),
        m.sound(),
{
    let glyph_w = 2 * w;
    let glyph_h = 2 * h;
    let inner = 3 * glyph_w + 2 * INNER_GAP;
    let widest = if inner > LABEL_W {
        inner
    } else {
        LABEL_W
    };
    let cell_w = widest + 2 * SPECIMEN_PAD_X;
    let fit = SPECIMEN_TARGET_WIDTH / cell_w;
    let cols: usize = if fit < 3 {
        3
    } else if fit > 8 {
        8
    } else {
        fit as usize
    };
    Metrics {
        slot_w: w + 2,
        slot_h: h + 2,
        glyph_w,
        glyph_h,
        cell_w,
        cell_h: glyph_h + SPECIMEN_LABEL_GAP + FONT_H * LABEL_SCALE + 2 * SPECIMEN_PAD_Y,
        cols,
    }
}

impl Metrics {
    /// The measures belong together: a cell holds three specimens side by side,
    /// and the label.
    pub open spec fn sound(self) -> bool {
        &&& 2 <= self.slot_w
        &&& 2 <= self.slot_h
        &&& 3 * self.glyph_w + 2 * INNER_GAP + 2 * SPECIMEN_PAD_X <= self.cell_w
        &&& LABEL_W + 2 * SPECIMEN_PAD_X <= self.cell_w
        &&& self.cell_h == self.glyph_h + 30
        &&& 3 <= self.cols <= 8
    }
}

/// First icon of the run of equal blocks that icon `i` belongs to.
pub open spec fn run_start(blocks: Seq<Block>, i: int) -> int
    decreases i,
{
    if i <= 0 || blocks[i] != blocks[i - 1] {
        i
    } else {
        run_start(blocks, i - 1)
    }
}

/// Row of the header above icon `i`, counted over legend, headers and tile rows.
/// The legend is row 0.
pub open spec fn header_row(blocks: Seq<Block>, cols: int, i: int) -> int
    decreases i, 0int,
{
    let s = run_start(blocks, i);
    if s <= 0 || s > i {
        1
    } else {
        tile_row(blocks, cols, s - 1) + 1
    }
}

/// Row of icon `i`, counted over legend, headers and tile rows.
pub open spec fn tile_row(blocks: Seq<Block>, cols: int, i: int) -> int
    decreases i, 1int,
{
    header_row(blocks, cols, i) + 1 + (i - run_start(blocks, i)) / cols
}

/// Top edge of the header above icon `i`.
pub open spec fn header_y(blocks: Seq<Block>, cols: int, cell_h: int, i: int) -> int
    decreases i, 0int,
{
    let s = run_start(blocks, i);
    if s <= 0 || s > i {
        LEGEND_BAND_H as int
    } else {
        tile_y(blocks, cols, cell_h, s - 1) + cell_h
    }
}

/// Top edge of icon `i`'s cell. Bands differ in height, so positions add up from
/// the top.
pub open spec fn tile_y(blocks: Seq<Block>, cols: int, cell_h: int, i: int) -> int
    decreases i, 1int,
{
    header_y(blocks, cols, cell_h, i) + HEADER_BAND_H + ((i - run_start(blocks, i)) / cols)
        * cell_h
}

/// Height of the specimen sheet.
pub open spec fn sheet_height(blocks: Seq<Block>, cols: int, cell_h: int) -> int {
    if blocks.len() == 0 {
        LEGEND_BAND_H as int
    } else {
        tile_y(blocks, cols, cell_h, blocks.len() - 1) + cell_h
    }
}

/// The block headers of the first `n` icons: canvas row, block, top edge.
pub open spec fn headers_spec(blocks: Seq<Block>, cols: int, cell_h: int, n: int) -> Seq<
    (int, Block, int),
>
    decreases n,
{
    if n <= 0 {
        seq![]
    } else if run_start(blocks, n - 1) == n - 1 {
        headers_spec(blocks, cols, cell_h, n - 1).push(
            (
                header_row(blocks, cols, n - 1),
                blocks[n - 1],
                header_y(blocks, cols, cell_h, n - 1),
            ),
        )
    } else {
        headers_spec(blocks, cols, cell_h, n - 1)
    }
}

/// Place of one icon on the specimen sheet.
#[derive(Clone, Copy, Debug, PartialEq, Eq, Structural)]
pub struct SpecimenTile {
    /// Column.
    pub col: usize,
    /// Row, counted over legend, headers and tile rows.
    pub canvas_row: usize,
    /// Top edge of the cell.
    pub pixel_y: u64,
}

/// One named block header of the specimen sheet.
#[derive(Clone, Copy, Debug, PartialEq, Eq, Structural)]
pub struct SpecimenHeader {
    /// Row, counted over legend, headers and tile rows.
    pub canvas_row: usize,
    /// The block.
    pub block: Block,
    /// Top edge of the band.
    pub pixel_y: u64,
}

/// Headers as mathematical values.
pub open spec fn header_views(v: Seq<SpecimenHeader>) -> Seq<(int, Block, int)> {
    v.map_values(|h: SpecimenHeader| (h.canvas_row as int, h.block, h.pixel_y as int))
}

/// The tile stands where the layout puts icon `i`.
pub open spec fn is_tile(t: SpecimenTile, blocks: Seq<Block>, m: Metrics, i: int) -> bool {
    &&& t.col == (i - run_start(blocks, i)) % (m.cols as int)
    &&& t.canvas_row == tile_row(blocks, m.cols as int, i)
    &&& t.pixel_y == tile_y(blocks, m.cols as int, m.cell_h as int, i)
}

/// Walks the bands of the specimen sheet: the legend, then per block a header
/// and as many tile rows as its icons need. Returns the tiles, the headers and
/// the height.
pub fn band_walk(targets: &[&Candidate], m: &Metrics) -> (out: (
    Vec<SpecimenTile>,
    Vec<SpecimenHeader>,
    u64,
))
    requires
        m.sound(),
        targets@.len() <= MAX_TARGETS,
    ensures
        out.0@.len() == targets@.len(),
        forall|i: int|
            0 <= i < targets@.len() ==> is_tile(#[trigger] out.0@[i], blocks_of(targets@), *m, i),
        header_views(out.1@) == headers_spec(
            blocks_of(targets@),
            m.cols as int,
            m.cell_h as int,
            targets@.len() as int,
        ),
        out.2 == sheet_height(blocks_of(targets@), m.cols as int, m.cell_h as int),
        forall|i: int|
            0 <= i < targets@.len() ==> (#[trigger] out.0@[i]).pixel_y + m.cell_h <= out.2,
        forall|i: int| 0 <= i < out.1@.len() ==> (#[trigger] out.1@[i]).pixel_y < out.2,
{
    let ghost blocks = blocks_of(targets@);
    let ghost cols = m.cols as int;
    let ghost ch = m.cell_h as int;
    let n = targets.len();
    let mut tiles: Vec<SpecimenTile> = Vec::new();
    let mut headers: Vec<SpecimenHeader> = Vec::new();
    let mut col: usize = 0;
    let mut canvas_row: usize = 0;
    let mut y: u64 = 0;
    assert(header_views(headers@) =~= seq![]);
    for i in 0..n
        invariant
            n == targets@.len() <= MAX_TARGETS,
            m.sound(),
            blocks == blocks_of(targets@),
            cols == m.cols,
            ch == m.cell_h,
            tiles@.len() == i,
            i == 0 ==> col == 0 && canvas_row == 0 && y == 0,
            i > 0 ==> is_tile(SpecimenTile { col, canvas_row, pixel_y: y }, blocks, *m, i - 1),
            0 <= col < cols,
            canvas_row <= 2 * i,
            y <= LEGEND_BAND_H + i * (HEADER_BAND_H + ch),
            forall|j: int| 0 <= j < i ==> is_tile(#[trigger] tiles@[j], blocks, *m, j),
            forall|j: int| 0 <= j < i ==> (#[trigger] tiles@[j]).pixel_y <= y,
            header_views(headers@) == headers_spec(blocks, cols, ch, i as int),
            forall|j: int| 0 <= j < headers@.len() ==> (#[trigger] headers@[j]).pixel_y <= y,
    {
        let block = targets[i].block;
        assert(blocks[i as int] == block);
        let fresh = if i == 0 {
            true
        } else {
            assert(blocks[i - 1] == targets@[i - 1].block);
            block != targets[i - 1].block
        };
        proof {
            assert((i + 1) * (HEADER_BAND_H + ch) == i * (HEADER_BAND_H + ch) + HEADER_BAND_H + ch)
                by (nonlinear_arith);
            assert(i * (HEADER_BAND_H + ch) <= 0x5555_5555 * 0x1_0000_0100) by (nonlinear_arith)
                requires
                    0 <= i <= 0x5555_5555,
                    0 <= HEADER_BAND_H + ch <= 0x1_0000_0100,
            ;
        }
        if fresh {
            let hrow = if i == 0 {
                1
            } else {
                canvas_row + 1
            };
            let hy = if i == 0 {
                LEGEND_BAND_H as u64
            } else {
                y + m.cell_h as u64
            };
            let ghost before = headers@;
            headers.push(SpecimenHeader { canvas_row: hrow, block, pixel_y: hy });
            proof {
                assert(run_start(blocks, i as int) == i);
                assert(hrow == header_row(blocks, cols, i as int));
                assert(hy == header_y(blocks, cols, ch, i as int));
                assert(header_views(headers@) =~= header_views(before).push(
                    (hrow as int, block, hy as int),
                ));
                lemma_div_zero(cols);
                assert(0 * ch == 0) by (nonlinear_arith);
            }
            col = 0;
            canvas_row = hrow + 1;
            y = hy + HEADER_BAND_H as u64;
        } else {
            proof {
                let s = run_start(blocks, i - 1);
                assert(run_start(blocks, i as int) == s);
                lemma_run_start(blocks, i - 1);
                lemma_next_in_run(i - 1 - s, cols);
                let q = (i - 1 - s) / cols;
                assert((q + 1) * ch == q * ch + ch) by (nonlinear_arith);
                assert(header_row(blocks, cols, i as int) == header_row(blocks, cols, i - 1));
                assert(header_y(blocks, cols, ch, i as int) == header_y(blocks, cols, ch, i - 1));
            }
            if col + 1 == m.cols {
                col = 0;
                canvas_row = canvas_row + 1;
                y = y + m.cell_h as u64;
            } else {
                col = col + 1;
            }
        }
        tiles.push(SpecimenTile { col, canvas_row, pixel_y: y });
    }
    let height = if n == 0 {
        LEGEND_BAND_H as u64
    } else {
        proof {
            assert(n * (HEADER_BAND_H + ch) <= 0x5555_5555 * 0x1_0000_0100) by (nonlinear_arith)
                requires
                    0 <= n <= 0x5555_5555,
                    0 <= HEADER_BAND_H + ch <= 0x1_0000_0100,
            ;
        }
        y + m.cell_h as u64
    };
    (tiles, headers, height)
}

proof fn lemma_div_zero(cols: int)
    requires
        cols > 0,
    ensures
        0int / cols == 0,
        0int % cols == 0,
{
    assert(0int / cols == 0 && 0int % cols == 0) by (nonlinear_arith)
        requires
            cols > 0,
    ;
}

proof fn lemma_run_start(blocks: Seq<Block>, i: int)
    requires
        0 <= i,
    ensures
        0 <= run_start(blocks, i) <= i,
    decreases i,
{
    if i > 0 && blocks[i] == blocks[i - 1] {
        lemma_run_start(blocks, i - 1);
    }
}

/// Stepping to the next icon of a run steps to the next column, or to the first
/// column of the next row.
proof fn lemma_next_in_run(j: int, cols: int)
    requires
        0 <= j,
        cols > 0,
    ensures
        (j % cols) + 1 == cols ==> (j + 1) % cols == 0 && (j + 1) / cols == j / cols + 1,
        (j % cols) + 1 != cols ==> (j + 1) % cols == j % cols + 1 && (j + 1) / cols == j / cols,
{
    let q = j / cols;
    let r = j % cols;
    vstd::arithmetic::div_mod::lemma_fundamental_div_mod(j, cols);
    vstd::arithmetic::div_mod::lemma_mod_bound(j, cols);
    vstd::arithmetic::mul::lemma_mul_is_commutative(cols, q);
    if r + 1 == cols {
        assert((q + 1) * cols == q * cols + cols) by (nonlinear_arith);
        vstd::arithmetic::div_mod::lemma_fundamental_div_mod_converse(j + 1, cols, q + 1, 0);
    } else {
        vstd::arithmetic::div_mod::lemma_fundamental_div_mod_converse(j + 1, cols, q, r + 1);
    }
}

// ---------------------------------------------------------------------------
// Crops of the icons
// ---------------------------------------------------------------------------
/// The crop of an icon on a platform.
pub open spec fn shot(targets: Seq<&Candidate>, crops: Seq<Crop>, i: int, p: int) -> Pic {
    crop_of(targets, crops, i, p).pic()
}

/// The crop of icon `i` on platform `p`.
pub open spec fn crop_of(
    targets: Seq<&Candidate>,
    crops: Seq<Crop>,
    i: int,
    p: int,
) -> RgbImage {
    crops[crop_place(crops, p as usize, targets[i].id@, 0)].image
}

/// The icon has no crop on the platform.
pub open spec fn lacks(targets: Seq<&Candidate>, crops: Seq<Crop>, i: int, p: int) -> bool {
    crop_place(crops, p as usize, targets[i].id@, 0) >= crops.len()
}

/// The first icon from `i` on without a canonical crop.
pub open spec fn lacks_canonical(
    targets: Seq<&Candidate>,
    crops: Seq<Crop>,
    i: int,
) -> Option<GridFault>
    decreases targets.len() - i,
{
    if i >= targets.len() {
        None
    } else if lacks(targets, crops, i, CANONICAL as int) {
        Some(GridFault::MissingCrop(CANONICAL as int, targets[i].id@))
    } else {
        lacks_canonical(targets, crops, i + 1)
    }
}

/// The first missing crop from number `k` on, counted platform by platform, icon
/// by icon.
pub open spec fn lacks_any(targets: Seq<&Candidate>, crops: Seq<Crop>, k: int) -> Option<GridFault>
    decreases 3 * targets.len() - k,
{
    if k >= 3 * targets.len() {
        None
    } else if lacks(targets, crops, k / 3, k % 3) {
        Some(GridFault::MissingCrop(k % 3, targets[k / 3].id@))
    } else {
        lacks_any(targets, crops, k + 1)
    }
}

/// Greatest width among the first `n` crops.
pub open spec fn widest(crops: Seq<Crop>, n: int) -> u32
    decreases n,
{
    if n <= 0 {
        0
    } else if crops[n - 1].image.width > widest(crops, n - 1) {
        crops[n - 1].image.width
    } else {
        widest(crops, n - 1)
    }
}

/// Greatest height among the first `n` crops.
pub open spec fn tallest(crops: Seq<Crop>, n: int) -> u32
    decreases n,
{
    if n <= 0 {
        0
    } else if crops[n - 1].image.height > tallest(crops, n - 1) {
        crops[n - 1].image.height
    } else {
        tallest(crops, n - 1)
    }
}

fn largest(crops: &[Crop]) -> (m: (u32, u32))
    ensures
        m.0 == widest(crops@, crops@.len() as int),
        m.1 == tallest(crops@, crops@.len() as int),
        forall|k: int|
            0 <= k < crops@.len() ==> (#[trigger] crops@[k]).image.width <= m.0
                && crops@[k].image.height <= m.1,
{
    let mut w: u32 = 0;
    let mut h: u32 = 0;
    for k in 0..crops.len()
        invariant
            w == widest(crops@, k as int),
            h == tallest(crops@, k as int),
            forall|j: int|
                0 <= j < k ==> (#[trigger] crops@[j]).image.width <= w && crops@[j].image.height
                    <= h,
    {
        if crops[k].image.width > w {
            w = crops[k].image.width;
        }
        if crops[k].image.height > h {
            h = crops[k].image.height;
        }
    }
    (w, h)
}

/// The table holds the place of every icon's crop on every platform.
pub open spec fn is_table(table: Seq<usize>, targets: Seq<&Candidate>, crops: Seq<Crop>) -> bool {
    &&& table.len() == 3 * targets.len()
    &&& forall|k: int|
        0 <= k < table.len() ==> (#[trigger] table[k]) < crops.len() && table[k] == crop_place(
            crops,
            (k % 3) as usize,
            targets[k / 3].id@,
            0,
        )
}

/// Finds every icon's crops.
fn locate(targets: &[&Candidate], crops: &[Crop]) -> (out: Result<Vec<usize>, GridError>)
    requires
        targets@.len() <= MAX_TARGETS,
    ensures
        match out {
            Ok(t) => is_table(t@, targets@, crops@) && lacks_canonical(targets@, crops@, 0) is None
                && lacks_any(targets@, crops@, 0) is None,
            Err(e) => Some(e@) == (if lacks_canonical(targets@, crops@, 0) is Some {
                lacks_canonical(targets@, crops@, 0)
            } else {
                lacks_any(targets@, crops@, 0)
            }),
        },
{
    let n = targets.len();
    for i in 0..n
        invariant
            n == targets@.len(),
            lacks_canonical(targets@, crops@, 0) == lacks_canonical(targets@, crops@, i as int),
    {
        if find_crop(crops, CANONICAL, targets[i].id.as_str()) >= crops.len() {
            return Err(
                GridError::MissingCrop { platform: CANONICAL, id: targets[i].id.clone() },
            );
        }
    }
    let mut table: Vec<usize> = Vec::new();
    for i in 0..n
        invariant
            n == targets@.len() <= MAX_TARGETS,
            lacks_canonical(targets@, crops@, 0) is None,
            lacks_any(targets@, crops@, 0) == lacks_any(targets@, crops@, 3 * i),
            table@.len() == 3 * i,
            forall|k: int|
                0 <= k < table@.len() ==> (#[trigger] table@[k]) < crops@.len() && table@[k]
                    == crop_place(crops@, (k % 3) as usize, targets@[k / 3].id@, 0),
    {
        for p in 0..PLATFORMS
            invariant
                n == targets@.len() <= MAX_TARGETS,
                i < n,
                lacks_canonical(targets@, crops@, 0) is None,
                lacks_any(targets@, crops@, 0) == lacks_any(targets@, crops@, 3 * i + p),
                table@.len() == 3 * i + p,
                forall|k: int|
                    0 <= k < table@.len() ==> (#[trigger] table@[k]) < crops@.len() && table@[k]
                        == crop_place(crops@, (k % 3) as usize, targets@[k / 3].id@, 0),
        {
            let at = find_crop(crops, p, targets[i].id.as_str());
            assert((3 * i + p) / 3 == i && (3 * i + p) % 3 == p);
            if at >= crops.len() {
                return Err(GridError::MissingCrop { platform: p, id: targets[i].id.clone() });
            }
            table.push(at);
        }
    }
    Ok(table)
}

// ---------------------------------------------------------------------------
// Drawing
// ---------------------------------------------------------------------------
/// Laying images that show pictures over each other shows the pictures laid
/// over each other.
proof fn lemma_overlay(before: RgbImage, top: RgbImage, after: RgbImage, p: Pic, t: Pic, x: int, y: int)
    requires
        before.shows(p),
        top.shows(t),
        after.shows(laid_over(before.pic(), top.pic(), x, y)),
    ensures
        after.shows(laid_over(p, t, x, y)),
{
    assert forall|a: int, b: int| 0 <= a < after.width && 0 <= b < after.height implies #[trigger] after.at(
        a,
        b,
    ) == laid_over(p, t, x, y).at(a, b) by {
        assert(after.at(a, b) == laid_over(before.pic(), top.pic(), x, y).at(a, b));
        if t.has(a - x, b - y) {
            assert(top.at(a - x, b - y) == t.at(a - x, b - y));
        } else {
            assert(before.at(a, b) == p.at(a, b));
        }
    }
}

/// Drawing text on an image that shows a picture shows the picture with the
/// text.
proof fn lemma_inscribe(
    before: RgbImage,
    after: RgbImage,
    p: Pic,
    x: int,
    y: int,
    s: Seq<char>,
    scale: int,
    color: Rgb,
)
    requires
        before.shows(p),
        after.shows(inscribed(before.pic(), x, y, s, scale, color)),
    ensures
        after.shows(inscribed(p, x, y, s, scale, color)),
{
    assert forall|a: int, b: int| 0 <= a < after.width && 0 <= b < after.height implies #[trigger] after.at(
        a,
        b,
    ) == inscribed(p, x, y, s, scale, color).at(a, b) by {
        assert(after.at(a, b) == inscribed(before.pic(), x, y, s, scale, color).at(a, b));
        assert(before.at(a, b) == p.at(a, b));
    }
}

/// Half of what is left of `outer` around `inner`.
pub open spec fn margin(outer: int, inner: int) -> int {
    if outer > inner {
        (outer - inner) / 2
    } else {
        0
    }
}

/// A crop centered on a black slot.
pub open spec fn tile_pic(crop: Pic, w: int, h: int) -> Pic {
    laid_over(flat(w, h, (0, 0, 0)), crop, margin(w, crop.w), margin(h, crop.h))
}

/// Center a crop on a black-padded uniform slot.
pub fn tile(crop: &RgbImage, slot_w: u32, slot_h: u32) -> (slot: RgbImage)
    requires
        crop.wf(),
        3 * (slot_w * slot_h) <= usize::MAX,
    ensures
        slot.shows(tile_pic(crop.pic(), slot_w as int, slot_h as int)),
{
    let mut slot = RgbImage::from_pixel(slot_w, slot_h, (0, 0, 0));
    let dx: u32 = if slot_w > crop.width {
        (slot_w - crop.width) / 2
    } else {
        0
    };
    let dy: u32 = if slot_h > crop.height {
        (slot_h - crop.height) / 2
    } else {
        0
    };
    let ghost before = slot;
    slot.overlay(crop, dx, dy);
    proof {
        lemma_overlay(
            before,
            *crop,
            slot,
            flat(slot_w as int, slot_h as int, (0, 0, 0)),
            crop.pic(),
            dx as int,
            dy as int,
        );
    }
    slot
}

/// The grid with its first `n` icons.
pub open spec fn grid_pic(
    targets: Seq<&Candidate>,
    crops: Seq<Crop>,
    m: Metrics,
    n: int,
) -> Pic
    decreases n,
{
    let blocks = blocks_of(targets);
    if n <= 0 {
        flat(
            GRID_COLUMNS * m.slot_w,
            grid_rows(blocks, GRID_COLUMNS as int) * m.slot_h,
            (0, 0, 0),
        )
    } else {
        let (r, c) = grid_place(blocks, GRID_COLUMNS as int, n - 1);
        laid_over(
            grid_pic(targets, crops, m, n - 1),
            tile_pic(
                shot(targets, crops, n - 1, CANONICAL as int),
                m.slot_w as int,
                m.slot_h as int,
            ),
            c * m.slot_w,
            r * m.slot_h,
        )
    }
}

/// The matrix with its first `k` tiles, counted platform by platform, icon by
/// icon.
pub open spec fn matrix_pic(
    targets: Seq<&Candidate>,
    crops: Seq<Crop>,
    m: Metrics,
    k: int,
) -> Pic
    decreases k,
{
    if k <= 0 {
        flat(PLATFORMS * m.slot_w, targets.len() * m.slot_h, (0, 0, 0))
    } else {
        laid_over(
            matrix_pic(targets, crops, m, k - 1),
            tile_pic(
                shot(targets, crops, (k - 1) / 3, (k - 1) % 3),
                m.slot_w as int,
                m.slot_h as int,
            ),
            ((k - 1) % 3) * m.slot_w,
            ((k - 1) / 3) * m.slot_h,
        )
    }
}

/// The extent is one that an image can have.
pub open spec fn image_fits(w: int, h: int) -> bool {
    w <= u32::MAX && h <= u32::MAX && 3 * (w * h) <= usize::MAX
}

fn fits(w: u64, h: u64) -> (b: bool)
    ensures
        b == image_fits(w as int, h as int),
{
    if w > 0xffff_ffff || h > 0xffff_ffff {
        return false;
    }
    assert(0 <= w * h <= 0xffff_ffff * 0xffff_ffff) by (nonlinear_arith)
        requires
            0 <= w <= 0xffff_ffff,
            0 <= h <= 0xffff_ffff,
    ;
    3 * (w as u128 * h as u128) <= usize::MAX as u128
}

fn draw_grid(
    targets: &[&Candidate],
    crops: &[Crop],
    table: &[usize],
    m: &Metrics,
    places: &[(usize, usize, usize)],
    rows: usize,
) -> (canvas: RgbImage)
    requires
        targets@.len() <= MAX_TARGETS,
        crops_ok(crops@),
        is_table(table@, targets@, crops@),
        m.sound(),
        3 * (m.slot_w * m.slot_h) <= usize::MAX,
        rows == grid_rows(blocks_of(targets@), GRID_COLUMNS as int),
        places@.len() == targets@.len(),
        forall|i: int|
            0 <= i < targets@.len() ==> {
                let p = grid_place(blocks_of(targets@), GRID_COLUMNS as int, i);
                (#[trigger] places@[i]).1 == p.0 && places@[i].2 == p.1
            },
        image_fits(GRID_COLUMNS * m.slot_w, rows * m.slot_h),
    ensures
        canvas.shows(grid_pic(targets@, crops@, *m, targets@.len() as int)),
{
    let ghost blocks = blocks_of(targets@);
    let w = GRID_COLUMNS as u32 * m.slot_w;
    assert(rows * m.slot_h >= 0) by (nonlinear_arith);
    assert(rows <= u32::MAX) by (nonlinear_arith)
        requires
            rows * m.slot_h <= u32::MAX,
            m.slot_h >= 1,
    ;
    let h = rows as u32 * m.slot_h;
    let mut canvas = RgbImage::from_pixel(w, h, (0, 0, 0));
    for i in 0..targets.len()
        invariant
            targets@.len() <= MAX_TARGETS,
            blocks == blocks_of(targets@),
            crops_ok(crops@),
            is_table(table@, targets@, crops@),
            m.sound(),
            3 * (m.slot_w * m.slot_h) <= usize::MAX,
            rows == grid_rows(blocks, GRID_COLUMNS as int),
            rows * m.slot_h <= u32::MAX,
            GRID_COLUMNS * m.slot_w <= u32::MAX,
            places@.len() == targets@.len(),
            forall|i: int|
                0 <= i < targets@.len() ==> {
                    let p = grid_place(blocks, GRID_COLUMNS as int, i);
                    (#[trigger] places@[i]).1 == p.0 && places@[i].2 == p.1
                },
            canvas.shows(grid_pic(targets@, crops@, *m, i as int)),
    {
        let ghost (r, c) = grid_place(blocks, GRID_COLUMNS as int, i as int);
        let (row, col) = (places[i].1, places[i].2);
        proof {
            assert(row == r && col == c);
            lemma_place_bounds(blocks, GRID_COLUMNS as int, i as int);
            assert((3 * i + CANONICAL) / 3 == i && (3 * i + CANONICAL) % 3 == CANONICAL);
            assert(table@[3 * i + CANONICAL] < crops@.len());
            assert(0 <= c * m.slot_w <= 16 * m.slot_w) by (nonlinear_arith)
                requires
                    0 <= c < 16,
            ;
            assert(0 <= r * m.slot_h <= rows * m.slot_h) by (nonlinear_arith)
                requires
                    0 <= r <= rows,
            ;
            assert(r <= u32::MAX) by (nonlinear_arith)
                requires
                    0 <= r <= rows,
                    rows * m.slot_h <= u32::MAX,
                    m.slot_h >= 1,
            ;
        }
        let image = &crops[table[3 * i + CANONICAL]].image;
        assert(crops@[table@[3 * i + CANONICAL] as int].image.wf());
        let slot = tile(image, m.slot_w, m.slot_h);
        let x = col as u32 * m.slot_w;
        let y = row as u32 * m.slot_h;
        let ghost before = canvas;
        canvas.overlay(&slot, x, y);
        proof {
            lemma_overlay(
                before,
                slot,
                canvas,
                grid_pic(targets@, crops@, *m, i as int),
                tile_pic(
                    shot(targets@, crops@, i as int, CANONICAL as int),
                    m.slot_w as int,
                    m.slot_h as int,
                ),
                c * m.slot_w,
                r * m.slot_h,
            );
        }
    }
    canvas
}

/// A place lies in the grid.
proof fn lemma_place_bounds(blocks: Seq<Block>, cols: int, i: int)
    requires
        0 <= i < blocks.len(),
        0 < cols,
    ensures
        0 <= grid_place(blocks, cols, i).0 < grid_rows(blocks, cols),
        0 <= grid_place(blocks, cols, i).1 < cols,
{
    lemma_place(blocks, cols, i);
    rows_never_step_back(blocks, cols, i, blocks.len() - 1);
}

proof fn lemma_place(blocks: Seq<Block>, cols: int, i: int)
    requires
        0 < cols,
    ensures
        0 <= grid_place(blocks, cols, i).0,
        0 <= grid_place(blocks, cols, i).1 < cols,
    decreases i,
{
    if i > 0 {
        lemma_place(blocks, cols, i - 1);
    }
}

/// Later icons never stand on earlier rows of the grid.
pub proof fn rows_never_step_back(blocks: Seq<Block>, cols: int, i: int, j: int)
    requires
        0 <= i <= j < blocks.len(),
        0 < cols,
    ensures
        grid_place(blocks, cols, i).0 <= grid_place(blocks, cols, j).0,
    decreases j - i,
{
    if i < j {
        rows_never_step_back(blocks, cols, i, j - 1);
    }
}

fn draw_matrix(
    targets: &[&Candidate],
    crops: &[Crop],
    table: &[usize],
    m: &Metrics,
) -> (canvas: RgbImage)
    requires
        targets@.len() <= MAX_TARGETS,
        crops_ok(crops@),
        is_table(table@, targets@, crops@),
        m.sound(),
        3 * (m.slot_w * m.slot_h) <= usize::MAX,
        image_fits(PLATFORMS * m.slot_w, targets@.len() * m.slot_h),
    ensures
        canvas.shows(matrix_pic(targets@, crops@, *m, 3 * (targets@.len() as int))),
{
    let n = targets.len();
    let w = PLATFORMS as u32 * m.slot_w;
    assert(n * m.slot_h >= 0) by (nonlinear_arith);
    let h = n as u32 * m.slot_h;
    let mut canvas = RgbImage::from_pixel(w, h, (0, 0, 0));
    for k in 0..3 * n
        invariant
            n == targets@.len() <= MAX_TARGETS,
            crops_ok(crops@),
            is_table(table@, targets@, crops@),
            m.sound(),
            3 * (m.slot_w * m.slot_h) <= usize::MAX,
            n * m.slot_h <= u32::MAX,
            PLATFORMS * m.slot_w <= u32::MAX,
            canvas.shows(matrix_pic(targets@, crops@, *m, k as int)),
    {
        let i = k / 3;
        let p = k % 3;
        proof {
            assert(table@[k as int] < crops@.len());
            assert(0 <= i * m.slot_h <= n * m.slot_h) by (nonlinear_arith)
                requires
                    0 <= i <= n,
            ;
            assert(0 <= p * m.slot_w <= 3 * m.slot_w) by (nonlinear_arith)
                requires
                    0 <= p < 3,
            ;
        }
        let image = &crops[table[k]].image;
        assert(crops@[table@[k as int] as int].image.wf());
        let slot = tile(image, m.slot_w, m.slot_h);
        let ghost before = canvas;
        canvas.overlay(&slot, p as u32 * m.slot_w, i as u32 * m.slot_h);
        proof {
            lemma_overlay(
                before,
                slot,
                canvas,
                matrix_pic(targets@, crops@, *m, k as int),
                tile_pic(
                    shot(targets@, crops@, i as int, p as int),
                    m.slot_w as int,
                    m.slot_h as int,
                ),
                p * m.slot_w,
                i * m.slot_h,
            );
        }
    }
    canvas
}

/// The legend letter of a platform.
pub open spec fn letter_text(p: int) -> Seq<char> {
    if p == 0 {
        "M"@
    } else if p == 1 {
        "W"@
    } else {
        "L"@
    }
}

/// Left edge of platform `p`'s slot in specimen column `c`.
pub open spec fn platform_x(m: Metrics, c: int, p: int) -> int {
    c * m.cell_w + SPECIMEN_PAD_X + p * (m.glyph_w + INNER_GAP)
}

/// Left edge of the legend letter over that slot.
pub open spec fn letter_x(m: Metrics, c: int, p: int) -> int {
    platform_x(m, c, p) + margin(m.glyph_w as int, FONT_W as int)
}

/// Top edge of the legend letters.
pub open spec fn legend_y() -> int {
    (LEGEND_BAND_H - FONT_H) / 2
}

/// The sheet with its first `k` legend letters, counted platform by platform,
/// column by column.
pub open spec fn legend_pic(base: Pic, m: Metrics, k: int) -> Pic
    decreases k,
{
    if k <= 0 {
        base
    } else {
        inscribed(
            legend_pic(base, m, k - 1),
            letter_x(m, (k - 1) / 3, (k - 1) % 3),
            legend_y(),
            letter_text((k - 1) % 3),
            1,
            label_color(),
        )
    }
}

/// The sheet with its first `k` block headers: named, left-aligned at scale 2.
pub open spec fn headers_pic(base: Pic, headers: Seq<(int, Block, int)>, k: int) -> Pic
    decreases k,
{
    if k <= 0 {
        base
    } else {
        inscribed(
            headers_pic(base, headers, k - 1),
            SPECIMEN_PAD_X as int,
            headers[k - 1].2 + (HEADER_BAND_H - FONT_H * 2) / 2,
            block_text(headers[k - 1].1),
            2,
            label_color(),
        )
    }
}

/// The activation label of a codepoint.
pub open spec fn codepoint_text(codepoint: u32) -> Seq<char> {
    seq!['U', '+'] + hex4(codepoint as nat)
}

/// A sheet with one icon's first `p` platforms, each at twice its size and
/// centered in its slot.
pub open spec fn platforms_pic(
    base: Pic,
    targets: Seq<&Candidate>,
    crops: Seq<Crop>,
    m: Metrics,
    i: int,
    p: int,
) -> Pic
    decreases p,
{
    if p <= 0 {
        base
    } else {
        let blocks = blocks_of(targets);
        let c = (i - run_start(blocks, i)) % (m.cols as int);
        let y = tile_y(blocks, m.cols as int, m.cell_h as int, i);
        let g = zoomed(crop_of(targets, crops, i, p - 1));
        laid_over(
            platforms_pic(base, targets, crops, m, i, p - 1),
            g,
            platform_x(m, c, p - 1) + margin(m.glyph_w as int, g.w),
            y + SPECIMEN_PAD_Y + margin(m.glyph_h as int, g.h),
        )
    }
}

/// A sheet with one icon's cell: all platforms, and the label under them.
pub open spec fn cell_pic(
    base: Pic,
    targets: Seq<&Candidate>,
    crops: Seq<Crop>,
    m: Metrics,
    i: int,
) -> Pic {
    let blocks = blocks_of(targets);
    let c = (i - run_start(blocks, i)) % (m.cols as int);
    let y = tile_y(blocks, m.cols as int, m.cell_h as int, i);
    inscribed(
        platforms_pic(base, targets, crops, m, i, PLATFORMS as int),
        c * m.cell_w + (m.cell_w - LABEL_W) / 2,
        y + SPECIMEN_PAD_Y + m.glyph_h + SPECIMEN_LABEL_GAP,
        codepoint_text(targets[i].codepoint),
        LABEL_SCALE as int,
        label_color(),
    )
}

/// The sheet with the cells of its first `n` icons.
pub open spec fn cells_pic(
    base: Pic,
    targets: Seq<&Candidate>,
    crops: Seq<Crop>,
    m: Metrics,
    n: int,
) -> Pic
    decreases n,
{
    if n <= 0 {
        base
    } else {
        cell_pic(cells_pic(base, targets, crops, m, n - 1), targets, crops, m, n - 1)
    }
}

/// The specimen sheet.
pub open spec fn sheet_pic(targets: Seq<&Candidate>, crops: Seq<Crop>, m: Metrics) -> Pic {
    let blocks = blocks_of(targets);
    let cols = m.cols as int;
    let n = targets.len() as int;
    let headers = headers_spec(blocks, cols, m.cell_h as int, n);
    let blank = flat(
        cols * m.cell_w,
        sheet_height(blocks, cols, m.cell_h as int),
        (0, 0, 0),
    );
    let legend = legend_pic(blank, m, 3 * cols);
    let named = headers_pic(legend, headers, headers.len() as int);
    cells_pic(named, targets, crops, m, n)
}

fn draw_legend(canvas: &mut RgbImage, m: &Metrics, Ghost(base): Ghost<Pic>)
    requires
        old(canvas).shows(base),
        m.sound(),
    ensures
        final(canvas).shows(legend_pic(base, *m, 3 * (m.cols as int))),
        final(canvas).width == old(canvas).width,
        final(canvas).height == old(canvas).height,
{
    let inner: u32 = if m.glyph_w > FONT_W {
        (m.glyph_w - FONT_W) / 2
    } else {
        0
    };
    for k in 0..3 * m.cols
        invariant
            m.sound(),
            inner == margin(m.glyph_w as int, FONT_W as int),
            canvas.shows(legend_pic(base, *m, k as int)),
            canvas.width == old(canvas).width,
            canvas.height == old(canvas).height,
    {
        let c = (k / 3) as u64;
        let p = (k % 3) as u64;
        proof {
            assert(0 <= c * m.cell_w <= 8 * 0x1_0000_0000) by (nonlinear_arith)
                requires
                    0 <= c < 8,
                    0 <= m.cell_w <= 0x1_0000_0000,
            ;
            assert(0 <= p * (m.glyph_w + INNER_GAP) <= 3 * 0x1_0000_0100) by (nonlinear_arith)
                requires
                    0 <= p < 3,
                    0 <= m.glyph_w + INNER_GAP <= 0x1_0000_0100,
            ;
        }
        let x = c * m.cell_w as u64 + SPECIMEN_PAD_X as u64 + p * (m.glyph_w as u64
            + INNER_GAP as u64) + inner as u64;
        let letter = if p == 0 {
            "M"
        } else if p == 1 {
            "W"
        } else {
            "L"
        };
        let ghost before = *canvas;
        draw_text(canvas, x as i64, 3, letter, 1, (200, 200, 200));
        proof {
            lemma_inscribe(
                before,
                *canvas,
                legend_pic(base, *m, k as int),
                x as int,
                legend_y(),
                letter@,
                1,
                label_color(),
            );
        }
    }
}

fn draw_headers(canvas: &mut RgbImage, headers: &[SpecimenHeader], Ghost(base): Ghost<Pic>)
    requires
        old(canvas).shows(base),
        forall|i: int|
            0 <= i < headers@.len() ==> (#[trigger] headers@[i]).pixel_y <= u32::MAX,
    ensures
        final(canvas).shows(
            headers_pic(base, header_views(headers@), headers@.len() as int),
        ),
        final(canvas).width == old(canvas).width,
        final(canvas).height == old(canvas).height,
{
    let ghost views = header_views(headers@);
    for k in 0..headers.len()
        invariant
            views == header_views(headers@),
            forall|i: int|
                0 <= i < headers@.len() ==> (#[trigger] headers@[i]).pixel_y <= u32::MAX,
            canvas.shows(headers_pic(base, views, k as int)),
            canvas.width == old(canvas).width,
            canvas.height == old(canvas).height,
    {
        let hd = &headers[k];
        assert(views[k as int] == (hd.canvas_row as int, hd.block, hd.pixel_y as int));
        let y = hd.pixel_y + 4;
        let name = block_display_name(hd.block);
        let ghost before = *canvas;
        draw_text(canvas, SPECIMEN_PAD_X as i64, y as i64, name, 2, (200, 200, 200));
        proof {
            lemma_inscribe(
                before,
                *canvas,
                headers_pic(base, views, k as int),
                SPECIMEN_PAD_X as int,
                y as int,
                name@,
                2,
                label_color(),
            );
        }
    }
}

/// The activation label of a codepoint.
fn codepoint_label(codepoint: u32) -> (s: String)
    ensures
        s@ == codepoint_text(codepoint),
{
    let mut out: Vec<char> = Vec::new();
    out.push('U');
    out.push('+');
    let d = numeral_chars(codepoint as u64, 16, 4);
    push_chars(&mut out, d.as_slice());
    assert(out@ =~= codepoint_text(codepoint));
    text_of(out.as_slice())
}

/// All crops can be zoomed and fit into the slots.
pub open spec fn crops_zoom(crops: Seq<Crop>, m: Metrics) -> bool {
    forall|k: int|
        0 <= k < crops.len() ==> {
            let c = (#[trigger] crops[k]).image;
            &&& 32 * (c.width * c.height) <= isize::MAX
            &&& 2 * c.width <= m.glyph_w
            &&& 2 * c.height <= m.glyph_h
        }
}

/// Lays a zoomed specimen into platform `p`'s slot of the specimen cell whose
/// corner is at `(x0, top)`, centered.
pub fn place_specimen(
    canvas: &mut RgbImage,
    specimen: &RgbImage,
    m: &Metrics,
    x0: u32,
    top: u32,
    p: u32,
)
    requires
        old(canvas).wf(),
        specimen.wf(),
        m.sound(),
        p < PLATFORMS,
        x0 + m.cell_w <= u32::MAX,
        top + m.cell_h <= u32::MAX,
    ensures
        final(canvas).shows(
            laid_over(
                old(canvas).pic(),
                specimen.pic(),
                x0 + SPECIMEN_PAD_X + p * (m.glyph_w + INNER_GAP) + margin(
                    m.glyph_w as int,
                    specimen.width as int,
                ),
                top + SPECIMEN_PAD_Y + margin(m.glyph_h as int, specimen.height as int),
            ),
        ),
        final(canvas).width == old(canvas).width,
        final(canvas).height == old(canvas).height,
{
    let dx: u32 = if m.glyph_w > specimen.width {
        (m.glyph_w - specimen.width) / 2
    } else {
        0
    };
    let dy: u32 = if m.glyph_h > specimen.height {
        (m.glyph_h - specimen.height) / 2
    } else {
        0
    };
    proof {
        let step = m.glyph_w + INNER_GAP;
        assert(0 <= p * step <= 2 * step) by (nonlinear_arith)
            requires
                0 <= p <= 2,
                0 <= step,
        ;
    }
    let x = x0 + SPECIMEN_PAD_X + p * (m.glyph_w + INNER_GAP) + dx;
    let y = top + SPECIMEN_PAD_Y + dy;
    canvas.overlay(specimen, x, y);
}

fn draw_cell(
    canvas: &mut RgbImage,
    targets: &[&Candidate],
    crops: &[Crop],
    table: &[usize],
    m: &Metrics,
    i: usize,
    t: &SpecimenTile,
    Ghost(base): Ghost<Pic>,
)
    requires
        old(canvas).shows(base),
        targets@.len() <= MAX_TARGETS,
        i < targets@.len(),
        crops_ok(crops@),
        crops_zoom(crops@, *m),
        is_table(table@, targets@, crops@),
        m.sound(),
        m.cols * m.cell_w <= u32::MAX,
        is_tile(*t, blocks_of(targets@), *m, i as int),
        t.pixel_y + m.cell_h <= u32::MAX,
    ensures
        final(canvas).shows(cell_pic(base, targets@, crops@, *m, i as int)),
        final(canvas).width == old(canvas).width,
        final(canvas).height == old(canvas).height,
{
    let ghost blocks = blocks_of(targets@);
    let ghost c = (i - run_start(blocks, i as int)) % (m.cols as int);
    let ghost y0 = tile_y(blocks, m.cols as int, m.cell_h as int, i as int);
    proof {
        assert(t.col == c && t.pixel_y == y0);
        vstd::arithmetic::div_mod::lemma_mod_bound(i - run_start(blocks, i as int), m.cols as int);
        let (col, cols, cw) = (t.col as int, m.cols as int, m.cell_w as int);
        assert(0 <= col * cw && col * cw + cw <= cols * cw) by (nonlinear_arith)
            requires
                0 <= col < cols,
                0 <= cw,
        ;
    }
    let x0 = t.col as u32 * m.cell_w;
    let top = t.pixel_y as u32;
    for p in 0..PLATFORMS
        invariant
            targets@.len() <= MAX_TARGETS,
            i < targets@.len(),
            blocks == blocks_of(targets@),
            c == (i - run_start(blocks, i as int)) % (m.cols as int),
            y0 == tile_y(blocks, m.cols as int, m.cell_h as int, i as int),
            x0 == c * m.cell_w,
            x0 + m.cell_w <= u32::MAX,
            top == y0,
            top + m.cell_h <= u32::MAX,
            crops_ok(crops@),
            crops_zoom(crops@, *m),
            is_table(table@, targets@, crops@),
            m.sound(),
            canvas.shows(platforms_pic(base, targets@, crops@, *m, i as int, p as int)),
            canvas.width == old(canvas).width,
            canvas.height == old(canvas).height,
    {
        proof {
            assert((3 * i + p) / 3 == i && (3 * i + p) % 3 == p);
            assert(table@[3 * i + p] < crops@.len());
            let k = table@[3 * i + p] as int;
            assert(crops@[k].image.wf());
            assert(2 * crops@[k].image.width <= m.glyph_w);
        }
        let image = &crops[table[3 * i + p]].image;
        let g = zoom(image);
        let ghost before = *canvas;
        place_specimen(canvas, &g, m, x0, top, p as u32);
        proof {
            let z = zoomed(crop_of(targets@, crops@, i as int, p as int));
            assert(g.shows(z));
            lemma_overlay(
                before,
                g,
                *canvas,
                platforms_pic(base, targets@, crops@, *m, i as int, p as int),
                z,
                platform_x(*m, c, p as int) + margin(m.glyph_w as int, z.w),
                top + SPECIMEN_PAD_Y + margin(m.glyph_h as int, z.h),
            );
        }
    }
    let label = codepoint_label(targets[i].codepoint);
    let lx = x0 + (m.cell_w - LABEL_W) / 2;
    let ly = top + SPECIMEN_PAD_Y + m.glyph_h + SPECIMEN_LABEL_GAP;
    let ghost before = *canvas;
    draw_text(canvas, lx as i64, ly as i64, label.as_str(), LABEL_SCALE, (200, 200, 200));
    proof {
        lemma_inscribe(
            before,
            *canvas,
            platforms_pic(base, targets@, crops@, *m, i as int, PLATFORMS as int),
            lx as int,
            ly as int,
            label@,
            LABEL_SCALE as int,
            label_color(),
        );
    }
}

fn draw_sheet(
    targets: &[&Candidate],
    crops: &[Crop],
    table: &[usize],
    m: &Metrics,
    tiles: &[SpecimenTile],
    headers: &[SpecimenHeader],
    height: u32,
) -> (canvas: RgbImage)
    requires
        targets@.len() <= MAX_TARGETS,
        crops_ok(crops@),
        crops_zoom(crops@, *m),
        is_table(table@, targets@, crops@),
        m.sound(),
        height == sheet_height(blocks_of(targets@), m.cols as int, m.cell_h as int),
        image_fits(m.cols * m.cell_w, height as int),
        tiles@.len() == targets@.len(),
        forall|i: int|
            0 <= i < targets@.len() ==> is_tile(#[trigger] tiles@[i], blocks_of(targets@), *m, i)
                && tiles@[i].pixel_y + m.cell_h <= height,
        header_views(headers@) == headers_spec(
            blocks_of(targets@),
            m.cols as int,
            m.cell_h as int,
            targets@.len() as int,
        ),
        forall|i: int| 0 <= i < headers@.len() ==> (#[trigger] headers@[i]).pixel_y < height,
    ensures
        canvas.shows(sheet_pic(targets@, crops@, *m)),
{
    assert(0 <= m.cols * m.cell_w) by (nonlinear_arith)
        requires
            0 <= m.cols,
            0 <= m.cell_w,
    ;
    let w = m.cols as u32 * m.cell_w;
    let ghost blank = flat(w as int, height as int, (0, 0, 0));
    let mut canvas = RgbImage::from_pixel(w, height, (0, 0, 0));
    draw_legend(&mut canvas, m, Ghost(blank));
    let ghost legend = legend_pic(blank, *m, 3 * (m.cols as int));
    draw_headers(&mut canvas, headers, Ghost(legend));
    let ghost named = headers_pic(legend, header_views(headers@), headers@.len() as int);
    for i in 0..targets.len()
        invariant
            targets@.len() <= MAX_TARGETS,
            crops_ok(crops@),
            crops_zoom(crops@, *m),
            is_table(table@, targets@, crops@),
            m.sound(),
            m.cols * m.cell_w <= u32::MAX,
            tiles@.len() == targets@.len(),
            forall|i: int|
                0 <= i < targets@.len() ==> is_tile(
                    #[trigger] tiles@[i],
                    blocks_of(targets@),
                    *m,
                    i,
                ) && tiles@[i].pixel_y + m.cell_h <= height,
            canvas.shows(cells_pic(named, targets@, crops@, *m, i as int)),
    {
        assert(is_tile(tiles@[i as int], blocks_of(targets@), *m, i as int));
        let ghost base = cells_pic(named, targets@, crops@, *m, i as int);
        draw_cell(&mut canvas, targets, crops, table, m, i, &tiles[i], Ghost(base));
    }
    canvas
}

// ---------------------------------------------------------------------------
// Index and export
// ---------------------------------------------------------------------------
/// Positions and metadata of one icon.
#[derive(Clone, Debug)]
pub struct TileMeta {
    /// Number of the icon in display order.
    pub index: usize,
    /// Slot-row in the grid.
    pub grid_row: usize,
    /// Slot-column in the grid.
    pub grid_col: usize,
    /// Row on the specimen sheet.
    pub specimen_row: usize,
    /// Column on the specimen sheet.
    pub specimen_col: usize,
    /// Visual row on the specimen sheet (the legend is row 0, headers count).
    pub canvas_row: usize,
    /// Top edge of the icon's row on the specimen sheet.
    pub pixel_y: u32,
    /// Catalog id.
    pub id: String,
    /// Codepoint of the glyph.
    pub codepoint: u32,
    /// Owning block.
    pub block: Block,
    /// Official Unicode name, empty where unknown.
    pub unicode_name: String,
}

/// The index of an export.
#[derive(Clone, Debug)]
pub struct GridIndex {
    /// Version of the schema.
    pub schema_version: u32,
    /// Columns of the grid.
    pub columns: usize,
    /// Columns of the specimen sheet.
    pub specimen_columns: usize,
    /// Headers of the specimen sheet.
    pub block_header_rows: Vec<SpecimenHeader>,
    /// Width of a grid or matrix slot.
    pub cell_width_px: u32,
    /// Height of a grid or matrix slot.
    pub cell_height_px: u32,
    /// One entry per icon, in display order.
    pub tiles: Vec<TileMeta>,
}

/// The charts and their index.
#[derive(Clone, Debug)]
pub struct Export {
    /// Canonical-platform tiles with block separators.
    pub grid: RgbImage,
    /// One row per icon, one column per platform.
    pub matrix: RgbImage,
    /// The specimen sheet.
    pub sheet: RgbImage,
    /// The index.
    pub index: GridIndex,
}

/// The official name of a codepoint, empty where unknown.
pub open spec fn name_of(names: Map<u32, String>, codepoint: u32) -> Seq<char> {
    if names.contains_key(codepoint) {
        names[codepoint]@
    } else {
        seq![]
    }
}

/// The metadata of icon `i`.
pub open spec fn is_meta(
    t: TileMeta,
    targets: Seq<&Candidate>,
    names: Map<u32, String>,
    m: Metrics,
    i: int,
) -> bool {
    let blocks = blocks_of(targets);
    let (r, c) = grid_place(blocks, GRID_COLUMNS as int, i);
    &&& t.index == i
    &&& t.grid_row == r
    &&& t.grid_col == c
    &&& t.specimen_row == tile_row(blocks, m.cols as int, i)
    &&& t.specimen_col == (i - run_start(blocks, i)) % (m.cols as int)
    &&& t.canvas_row == tile_row(blocks, m.cols as int, i)
    &&& t.pixel_y == tile_y(blocks, m.cols as int, m.cell_h as int, i)
    &&& t.id@ == targets[i].id@
    &&& t.codepoint == targets[i].codepoint
    &&& t.block == targets[i].block
    &&& t.unicode_name@ == name_of(names, targets[i].codepoint)
}

/// The index of the icons.
pub open spec fn is_index(
    x: GridIndex,
    targets: Seq<&Candidate>,
    names: Map<u32, String>,
    m: Metrics,
) -> bool {
    &&& x.schema_version == INDEX_VERSION
    &&& x.columns == GRID_COLUMNS
    &&& x.specimen_columns == m.cols
    &&& header_views(x.block_header_rows@) == headers_spec(
        blocks_of(targets),
        m.cols as int,
        m.cell_h as int,
        targets.len() as int,
    )
    &&& x.cell_width_px == m.slot_w
    &&& x.cell_height_px == m.slot_h
    &&& x.tiles@.len() == targets.len()
    &&& forall|i: int|
        0 <= i < targets.len() ==> is_meta(#[trigger] x.tiles@[i], targets, names, m, i)
}

/// The measures for the given crops.
pub open spec fn crop_metrics(crops: Seq<Crop>) -> Metrics {
    metrics_spec(widest(crops, crops.len() as int), tallest(crops, crops.len() as int))
}

/// The charts do not fit into images: a coordinate, a canvas, or what zooming a
/// crop takes in memory is more than the machine can hold.
pub open spec fn too_large(targets: Seq<&Candidate>, crops: Seq<Crop>) -> bool {
    let w = widest(crops, crops.len() as int);
    let h = tallest(crops, crops.len() as int);
    let m = crop_metrics(crops);
    let blocks = blocks_of(targets);
    ||| !metrics_fit(w, h)
    ||| 32 * (w * h) > isize::MAX
    ||| !image_fits(m.slot_w as int, m.slot_h as int)
    ||| !image_fits(GRID_COLUMNS * m.slot_w, grid_rows(blocks, GRID_COLUMNS as int) * m.slot_h)
    ||| !image_fits(PLATFORMS * m.slot_w, targets.len() * m.slot_h)
    ||| !image_fits(m.cols * m.cell_w, sheet_height(blocks, m.cols as int, m.cell_h as int))
}

/// Why the icons cannot be charted.
pub open spec fn compose_fault(targets: Seq<&Candidate>, crops: Seq<Crop>) -> Option<GridFault> {
    if crops.len() == 0 {
        Some(GridFault::NoCrops)
    } else if too_large(targets, crops) {
        Some(GridFault::TooLarge)
    } else if lacks_canonical(targets, crops, 0) is Some {
        lacks_canonical(targets, crops, 0)
    } else {
        lacks_any(targets, crops, 0)
    }
}

/// The charts of the icons.
pub open spec fn is_export(
    e: Export,
    targets: Seq<&Candidate>,
    crops: Seq<Crop>,
    names: Map<u32, String>,
) -> bool {
    let m = crop_metrics(crops);
    let n = targets.len() as int;
    &&& e.grid.shows(grid_pic(targets, crops, m, n))
    &&& e.matrix.shows(matrix_pic(targets, crops, m, 3 * n))
    &&& e.sheet.shows(sheet_pic(targets, crops, m))
    &&& is_index(e.index, targets, names, m)
}

/// The official name of a codepoint, empty where unknown.
pub fn find_name(names: &HashMap<u32, String>, codepoint: u32) -> (s: String)
    ensures
        s@ == name_of(names@, codepoint),
{
    broadcast use vstd::std_specs::hash::group_hash_axioms;

    match names.get(&codepoint) {
        Some(n) => n.clone(),
        None => {
            let s = String::new();
            assert(s@ =~= seq![]);
            s
        },
    }
}

fn build_index(
    targets: &[&Candidate],
    names: &HashMap<u32, String>,
    m: &Metrics,
    places: &[(usize, usize, usize)],
    tiles: &[SpecimenTile],
    headers: Vec<SpecimenHeader>,
) -> (x: GridIndex)
    requires
        places@.len() == targets@.len(),
        forall|i: int|
            0 <= i < targets@.len() ==> {
                let p = grid_place(blocks_of(targets@), GRID_COLUMNS as int, i);
                (#[trigger] places@[i]).1 == p.0 && places@[i].2 == p.1
            },
        tiles@.len() == targets@.len(),
        forall|i: int|
            0 <= i < targets@.len() ==> is_tile(#[trigger] tiles@[i], blocks_of(targets@), *m, i)
                && tiles@[i].pixel_y <= u32::MAX,
        header_views(headers@) == headers_spec(
            blocks_of(targets@),
            m.cols as int,
            m.cell_h as int,
            targets@.len() as int,
        ),
    ensures
        is_index(x, targets@, names@, *m),
{
    let mut meta: Vec<TileMeta> = Vec::new();
    for i in 0..targets.len()
        invariant
            places@.len() == targets@.len(),
            forall|i: int|
                0 <= i < targets@.len() ==> {
                    let p = grid_place(blocks_of(targets@), GRID_COLUMNS as int, i);
                    (#[trigger] places@[i]).1 == p.0 && places@[i].2 == p.1
                },
            tiles@.len() == targets@.len(),
            forall|i: int|
                0 <= i < targets@.len() ==> is_tile(
                    #[trigger] tiles@[i],
                    blocks_of(targets@),
                    *m,
                    i,
                ) && tiles@[i].pixel_y <= u32::MAX,
            meta@.len() == i,
            forall|j: int| 0 <= j < i ==> is_meta(#[trigger] meta@[j], targets@, names@, *m, j),
    {
        let t = targets[i];
        let st = &tiles[i];
        let ghost p = grid_place(blocks_of(targets@), GRID_COLUMNS as int, i as int);
        assert(places@[i as int].1 == p.0);
        assert(is_tile(tiles@[i as int], blocks_of(targets@), *m, i as int));
        meta.push(
            TileMeta {
                index: i,
                grid_row: places[i].1,
                grid_col: places[i].2,
                specimen_row: st.canvas_row,
                specimen_col: st.col,
                canvas_row: st.canvas_row,
                pixel_y: st.pixel_y as u32,
                id: t.id.clone(),
                codepoint: t.codepoint,
                block: t.block,
                unicode_name: find_name(names, t.codepoint),
            },
        );
    }
    GridIndex {
        schema_version: INDEX_VERSION,
        columns: GRID_COLUMNS,
        specimen_columns: m.cols,
        block_header_rows: headers,
        cell_width_px: m.slot_w,
        cell_height_px: m.slot_h,
        tiles: meta,
    }
}

/// Composes the charts of the icons from their crops. Nothing is handed out
/// unless everything could be composed.
pub fn compose(targets: &[&Candidate], crops: &[Crop], names: &HashMap<u32, String>) -> (out: Result<
    Export,
    GridError,
>)
    requires
        crops_ok(crops@),
    ensures
        match out {
            Ok(e) => compose_fault(targets@, crops@) is None && is_export(
                e,
                targets@,
                crops@,
                names@,
            ) && legend_names_platforms(e),
            Err(f) => compose_fault(targets@, crops@) == Some(f@),
        },
{
    if crops.len() == 0 {
        return Err(GridError::NoCrops);
    }
    let n = targets.len();
    let (w, h) = largest(crops);
    if 6 * w as u64 + 20 > u32::MAX as u64 || 2 * h as u64 + 30 > u32::MAX as u64 {
        return Err(GridError::TooLarge);
    }
    if n > MAX_TARGETS {
        proof {
            let slot_h = crop_metrics(crops@).slot_h;
            assert(crops@[0].image.height <= h);
            assert(n * slot_h > u32::MAX) by (nonlinear_arith)
                requires
                    n > 0x5555_5555,
                    slot_h >= 3,
            ;
        }
        return Err(GridError::TooLarge);
    }
    assert(0 <= w * h <= 0x1_0000_0000 * 0x1_0000_0000) by (nonlinear_arith)
        requires
            0 <= w <= 0x1_0000_0000,
            0 <= h <= 0x1_0000_0000,
    ;
    if 32 * (w as u128 * h as u128) > isize::MAX as u128 {
        return Err(GridError::TooLarge);
    }
    let m = metrics(w, h);
    let (places, rows) = block_separated_placements(targets, GRID_COLUMNS);
    let (tiles, headers, height) = band_walk(targets, &m);
    proof {
        assert(0 <= rows * m.slot_h <= 0xAAAA_AAAB * 0xFFFF_FFFF) by (nonlinear_arith)
            requires
                0 <= rows <= 0xAAAA_AAAB,
                0 <= m.slot_h <= 0xFFFF_FFFF,
        ;
        assert(0 <= n * m.slot_h <= 0x5555_5555 * 0xFFFF_FFFF) by (nonlinear_arith)
            requires
                0 <= n <= 0x5555_5555,
                0 <= m.slot_h <= 0xFFFF_FFFF,
        ;
        assert(0 <= m.cols * m.cell_w <= 8 * 0xFFFF_FFFF) by (nonlinear_arith)
            requires
                0 <= m.cols <= 8,
                0 <= m.cell_w <= 0xFFFF_FFFF,
        ;
    }
    if !fits(m.slot_w as u64, m.slot_h as u64) || !fits(
        GRID_COLUMNS as u64 * m.slot_w as u64,
        rows as u64 * m.slot_h as u64,
    ) || !fits(PLATFORMS as u64 * m.slot_w as u64, n as u64 * m.slot_h as u64) || !fits(
        m.cols as u64 * m.cell_w as u64,
        height,
    ) {
        return Err(GridError::TooLarge);
    }
    let table = match locate(targets, crops) {
        Ok(t) => t,
        Err(e) => {
            return Err(e);
        },
    };
    proof {
        assert forall|k: int| 0 <= k < crops@.len() implies {
            let c = (#[trigger] crops@[k]).image;
            &&& 32 * (c.width * c.height) <= isize::MAX
            &&& 2 * c.width <= m.glyph_w
            &&& 2 * c.height <= m.glyph_h
        } by {
            let c = crops@[k].image;
            assert(c.width * c.height <= w * h) by (nonlinear_arith)
                requires
                    0 <= c.width <= w,
                    0 <= c.height <= h,
            ;
        }
    }
    let grid = draw_grid(targets, crops, table.as_slice(), &m, places.as_slice(), rows);
    let matrix = draw_matrix(targets, crops, table.as_slice(), &m);
    let sheet = draw_sheet(
        targets,
        crops,
        table.as_slice(),
        &m,
        tiles.as_slice(),
        headers.as_slice(),
        height as u32,
    );
    let index = build_index(targets, names, &m, places.as_slice(), tiles.as_slice(), headers);
    let e = Export { grid, matrix, sheet, index };
    proof {
        legends_name_platforms(e, targets@, crops@, names@);
    }
    Ok(e)
}

// ---------------------------------------------------------------------------
// Laws
// ---------------------------------------------------------------------------
/// No two icons share a slot of the grid: in display order, slots advance row by
/// row and column by column.
pub proof fn slots_advance(blocks: Seq<Block>, cols: int, i: int, j: int)
    requires
        0 <= i < j < blocks.len(),
        0 < cols,
    ensures
        grid_place(blocks, cols, i).0 < grid_place(blocks, cols, j).0 || (grid_place(
            blocks,
            cols,
            i,
        ).0 == grid_place(blocks, cols, j).0 && grid_place(blocks, cols, i).1 < grid_place(
            blocks,
            cols,
            j,
        ).1),
    decreases j - i,
{
    if i + 1 < j {
        slots_advance(blocks, cols, i, j - 1);
    }
}

/// Where the block changes, exactly one slot-row stays blank between the two.
pub proof fn one_blank_row_between_blocks(blocks: Seq<Block>, cols: int, i: int, k: int)
    requires
        0 < i < blocks.len(),
        blocks[i] != blocks[i - 1],
        0 <= k < blocks.len(),
        0 < cols,
    ensures
        grid_place(blocks, cols, i).0 == grid_place(blocks, cols, i - 1).0 + 2,
        grid_place(blocks, cols, i).1 == 0,
        grid_place(blocks, cols, k).0 != grid_place(blocks, cols, i - 1).0 + 1,
{
    if k < i {
        rows_never_step_back(blocks, cols, k, i - 1);
    } else {
        rows_never_step_back(blocks, cols, i, k);
    }
}

/// A position inside one slot is not inside another.
proof fn lemma_other_slot(a: int, b: int, d: int, size: int)
    requires
        0 < size,
        0 <= d < size,
        a != b,
    ensures
        !(0 <= a * size + d - b * size < size),
{
    assert(!(0 <= a * size + d - b * size < size)) by (nonlinear_arith)
        requires
            0 < size,
            0 <= d < size,
            a != b,
    ;
}

/// Every slot of the grid shows its icon's tile: nothing drawn later covers it.
pub proof fn grid_slots_show_their_tiles(
    targets: Seq<&Candidate>,
    crops: Seq<Crop>,
    m: Metrics,
    i: int,
    n: int,
    dx: int,
    dy: int,
)
    requires
        0 <= i < n <= targets.len(),
        0 <= dx < m.slot_w,
        0 <= dy < m.slot_h,
    ensures
        ({
            let (r, c) = grid_place(blocks_of(targets), GRID_COLUMNS as int, i);
            grid_pic(targets, crops, m, n).at(c * m.slot_w + dx, r * m.slot_h + dy) == tile_pic(
                shot(targets, crops, i, CANONICAL as int),
                m.slot_w as int,
                m.slot_h as int,
            ).at(dx, dy)
        }),
    decreases n,
{
    let blocks = blocks_of(targets);
    let (r, c) = grid_place(blocks, GRID_COLUMNS as int, i);
    let j = n - 1;
    if i < j {
        grid_slots_show_their_tiles(targets, crops, m, i, j, dx, dy);
        let (s, d) = grid_place(blocks, GRID_COLUMNS as int, j);
        slots_advance(blocks, GRID_COLUMNS as int, i, j);
        if r != s {
            lemma_other_slot(r, s, dy, m.slot_h as int);
        } else {
            lemma_other_slot(c, d, dx, m.slot_w as int);
        }
    }
}

/// Every slot of the matrix shows its icon's tile on its platform.
pub proof fn matrix_slots_show_their_tiles(
    targets: Seq<&Candidate>,
    crops: Seq<Crop>,
    m: Metrics,
    i: int,
    p: int,
    k: int,
    dx: int,
    dy: int,
)
    requires
        0 <= i < targets.len(),
        0 <= p < PLATFORMS,
        3 * i + p < k <= 3 * targets.len(),
        0 <= dx < m.slot_w,
        0 <= dy < m.slot_h,
    ensures
        matrix_pic(targets, crops, m, k).at(p * m.slot_w + dx, i * m.slot_h + dy) == tile_pic(
            shot(targets, crops, i, p),
            m.slot_w as int,
            m.slot_h as int,
        ).at(dx, dy),
    decreases k,
{
    let j = k - 1;
    if 3 * i + p < j {
        matrix_slots_show_their_tiles(targets, crops, m, i, p, j, dx, dy);
        if i != j / 3 {
            lemma_other_slot(i, j / 3, dy, m.slot_h as int);
        } else {
            lemma_other_slot(p, j % 3, dx, m.slot_w as int);
        }
    }
}

/// Long runs of a block wrap without repeating an icon: in display order,
/// specimen cells advance row by row and column by column, and every further row
/// lies below the one before it.
pub proof fn specimens_advance(blocks: Seq<Block>, cols: int, cell_h: int, i: int, j: int)
    requires
        0 <= i < j < blocks.len(),
        0 < cols,
        0 < cell_h,
    ensures
        ({
            let ci = (i - run_start(blocks, i)) % cols;
            let cj = (j - run_start(blocks, j)) % cols;
            let (ri, rj) = (tile_row(blocks, cols, i), tile_row(blocks, cols, j));
            let (yi, yj) = (tile_y(blocks, cols, cell_h, i), tile_y(blocks, cols, cell_h, j));
            ||| ri == rj && yi == yj && ci < cj
            ||| ri < rj && yi + cell_h <= yj
        }),
    decreases j - i,
{
    let k = j - 1;
    if i < k {
        specimens_advance(blocks, cols, cell_h, i, k);
    }
    lemma_run_start(blocks, k);
    if blocks[j] != blocks[k] {
        lemma_div_zero(cols);
        assert(0 * cell_h == 0) by (nonlinear_arith);
        assert(run_start(blocks, j) == j);
    } else {
        let s = run_start(blocks, k);
        assert(run_start(blocks, j) == s);
        lemma_next_in_run(k - s, cols);
        let q = (k - s) / cols;
        assert((q + 1) * cell_h == q * cell_h + cell_h) by (nonlinear_arith);
        assert(header_row(blocks, cols, j) == header_row(blocks, cols, k));
        assert(header_y(blocks, cols, cell_h, j) == header_y(blocks, cols, cell_h, k));
    }
}

/// The two images are equal, byte for byte.
pub open spec fn same_image(a: RgbImage, b: RgbImage) -> bool {
    a.width == b.width && a.height == b.height && a.data@ == b.data@
}

/// The two exports are equal: every byte of the charts and every entry of the
/// index.
pub open spec fn same_export(a: Export, b: Export) -> bool {
    &&& same_image(a.grid, b.grid)
    &&& same_image(a.matrix, b.matrix)
    &&& same_image(a.sheet, b.sheet)
    &&& a.index.schema_version == b.index.schema_version
    &&& a.index.columns == b.index.columns
    &&& a.index.specimen_columns == b.index.specimen_columns
    &&& a.index.cell_width_px == b.index.cell_width_px
    &&& a.index.cell_height_px == b.index.cell_height_px
    &&& header_views(a.index.block_header_rows@) == header_views(b.index.block_header_rows@)
    &&& a.index.tiles@.len() == b.index.tiles@.len()
    &&& forall|i: int|
        0 <= i < a.index.tiles@.len() ==> same_meta(
            #[trigger] a.index.tiles@[i],
            b.index.tiles@[i],
        )
}

/// Exports are deterministic: the icons, their crops and the names fix every
/// byte of the charts and every entry of the index.
pub proof fn exports_are_deterministic(
    a: Export,
    b: Export,
    targets: Seq<&Candidate>,
    crops: Seq<Crop>,
    other: Seq<Crop>,
    names: Map<u32, String>,
)
    requires
        same_crops(crops, other),
        compose_fault(targets, crops) is None,
        is_export(a, targets, crops, names),
        is_export(b, targets, other, names),
    ensures
        same_export(a, b),
{
    let n = targets.len() as int;
    lemma_same_measures(crops, other);
    let m = crop_metrics(crops);
    lemma_no_lack(targets, crops, 0);
    lemma_same_grid(targets, crops, other, m, n);
    lemma_same_matrix(targets, crops, other, m, 3 * n);
    let headers = headers_spec(blocks_of(targets), m.cols as int, m.cell_h as int, n);
    let blank = flat(
        m.cols * m.cell_w,
        sheet_height(blocks_of(targets), m.cols as int, m.cell_h as int),
        (0, 0, 0),
    );
    let named = headers_pic(
        legend_pic(blank, m, 3 * (m.cols as int)),
        headers,
        headers.len() as int,
    );
    lemma_same_cells(named, targets, crops, other, m, n);
    images_are_fixed_by_their_picture(a.grid, b.grid, grid_pic(targets, crops, m, n));
    images_are_fixed_by_their_picture(a.matrix, b.matrix, matrix_pic(targets, crops, m, 3 * n));
    images_are_fixed_by_their_picture(a.sheet, b.sheet, sheet_pic(targets, crops, m));
    assert forall|i: int| 0 <= i < a.index.tiles@.len() implies same_meta(
        #[trigger] a.index.tiles@[i],
        b.index.tiles@[i],
    ) by {
        assert(is_meta(a.index.tiles@[i], targets, names, m, i));
        assert(is_meta(b.index.tiles@[i], targets, names, m, i));
    }
}

/// The same crops make the same charts fail for the same reason.
pub proof fn same_crops_same_fault(
    targets: Seq<&Candidate>,
    crops: Seq<Crop>,
    other: Seq<Crop>,
)
    requires
        same_crops(crops, other),
    ensures
        compose_fault(targets, crops) == compose_fault(targets, other),
{
    lemma_same_measures(crops, other);
    lemma_same_lack(targets, crops, other, 0);
    lemma_same_lack_any(targets, crops, other, 0);
}

proof fn lemma_same_measures(a: Seq<Crop>, b: Seq<Crop>)
    requires
        same_crops(a, b),
    ensures
        widest(a, a.len() as int) == widest(b, b.len() as int),
        tallest(a, a.len() as int) == tallest(b, b.len() as int),
        crop_metrics(a) == crop_metrics(b),
{
    lemma_same_extents(a, b, a.len() as int);
}

proof fn lemma_same_extents(a: Seq<Crop>, b: Seq<Crop>, n: int)
    requires
        same_crops(a, b),
        n <= a.len(),
    ensures
        widest(a, n) == widest(b, n),
        tallest(a, n) == tallest(b, n),
    decreases n,
{
    if n > 0 {
        assert(same_crop(a[n - 1], b[n - 1]));
        lemma_same_extents(a, b, n - 1);
    }
}

proof fn lemma_same_lack(targets: Seq<&Candidate>, a: Seq<Crop>, b: Seq<Crop>, i: int)
    requires
        same_crops(a, b),
        0 <= i,
    ensures
        lacks_canonical(targets, a, i) == lacks_canonical(targets, b, i),
    decreases targets.len() - i,
{
    if i < targets.len() {
        same_crops_same_place(a, b, CANONICAL, targets[i].id@, 0);
        lemma_same_lack(targets, a, b, i + 1);
    }
}

proof fn lemma_same_lack_any(targets: Seq<&Candidate>, a: Seq<Crop>, b: Seq<Crop>, k: int)
    requires
        same_crops(a, b),
        0 <= k,
    ensures
        lacks_any(targets, a, k) == lacks_any(targets, b, k),
    decreases 3 * targets.len() - k,
{
    if k < 3 * targets.len() {
        same_crops_same_place(a, b, (k % 3) as usize, targets[k / 3].id@, 0);
        lemma_same_lack_any(targets, a, b, k + 1);
    }
}

/// Without a missing crop, none lacks.
proof fn lemma_no_lack(targets: Seq<&Candidate>, crops: Seq<Crop>, k: int)
    requires
        0 <= k,
        lacks_any(targets, crops, k) is None,
    ensures
        forall|j: int|
            k <= j < 3 * targets.len() ==> !#[trigger] lacks(targets, crops, j / 3, j % 3),
    decreases 3 * targets.len() - k,
{
    if k < 3 * targets.len() {
        lemma_no_lack(targets, crops, k + 1);
    }
}

/// No crop is missing.
spec fn all_there(targets: Seq<&Candidate>, crops: Seq<Crop>) -> bool {
    forall|j: int| 0 <= j < 3 * targets.len() ==> !#[trigger] lacks(targets, crops, j / 3, j % 3)
}

proof fn lemma_same_shot(targets: Seq<&Candidate>, a: Seq<Crop>, b: Seq<Crop>, i: int, p: int)
    requires
        same_crops(a, b),
        all_there(targets, a),
        0 <= i < targets.len(),
        0 <= p < 3,
    ensures
        shot(targets, a, i, p) == shot(targets, b, i, p),
        zoomed(crop_of(targets, a, i, p)) == zoomed(crop_of(targets, b, i, p)),
{
    let j = 3 * i + p;
    assert(j / 3 == i && j % 3 == p);
    assert(!lacks(targets, a, j / 3, j % 3));
    same_crops_same_place(a, b, p as usize, targets[i].id@, 0);
    let k = crop_place(a, p as usize, targets[i].id@, 0);
    crop_places_lie_inside(a, p as usize, targets[i].id@);
    assert(same_crop(a[k], b[k]));
    assert(a[k].image.pic().px =~= b[k].image.pic().px);
}

proof fn lemma_same_grid(
    targets: Seq<&Candidate>,
    a: Seq<Crop>,
    b: Seq<Crop>,
    m: Metrics,
    n: int,
)
    requires
        same_crops(a, b),
        all_there(targets, a),
        n <= targets.len(),
    ensures
        grid_pic(targets, a, m, n) == grid_pic(targets, b, m, n),
    decreases n,
{
    if n > 0 {
        lemma_same_grid(targets, a, b, m, n - 1);
        lemma_same_shot(targets, a, b, n - 1, CANONICAL as int);
    }
}

proof fn lemma_same_matrix(
    targets: Seq<&Candidate>,
    a: Seq<Crop>,
    b: Seq<Crop>,
    m: Metrics,
    k: int,
)
    requires
        same_crops(a, b),
        all_there(targets, a),
        k <= 3 * targets.len(),
    ensures
        matrix_pic(targets, a, m, k) == matrix_pic(targets, b, m, k),
    decreases k,
{
    if k > 0 {
        lemma_same_matrix(targets, a, b, m, k - 1);
        lemma_same_shot(targets, a, b, (k - 1) / 3, (k - 1) % 3);
    }
}

proof fn lemma_same_platforms(
    base: Pic,
    targets: Seq<&Candidate>,
    a: Seq<Crop>,
    b: Seq<Crop>,
    m: Metrics,
    i: int,
    p: int,
)
    requires
        same_crops(a, b),
        all_there(targets, a),
        0 <= i < targets.len(),
        p <= 3,
    ensures
        platforms_pic(base, targets, a, m, i, p) == platforms_pic(base, targets, b, m, i, p),
    decreases p,
{
    if p > 0 {
        lemma_same_platforms(base, targets, a, b, m, i, p - 1);
        lemma_same_shot(targets, a, b, i, p - 1);
    }
}

proof fn lemma_same_cells(
    base: Pic,
    targets: Seq<&Candidate>,
    a: Seq<Crop>,
    b: Seq<Crop>,
    m: Metrics,
    n: int,
)
    requires
        same_crops(a, b),
        all_there(targets, a),
        n <= targets.len(),
    ensures
        cells_pic(base, targets, a, m, n) == cells_pic(base, targets, b, m, n),
    decreases n,
{
    if n > 0 {
        lemma_same_cells(base, targets, a, b, m, n - 1);
        lemma_same_platforms(
            cells_pic(base, targets, a, m, n - 1),
            targets,
            a,
            b,
            m,
            n - 1,
            PLATFORMS as int,
        );
    }
}

/// The metadata say the same.
pub open spec fn same_meta(a: TileMeta, b: TileMeta) -> bool {
    &&& a.index == b.index
    &&& a.grid_row == b.grid_row
    &&& a.grid_col == b.grid_col
    &&& a.specimen_row == b.specimen_row
    &&& a.specimen_col == b.specimen_col
    &&& a.canvas_row == b.canvas_row
    &&& a.pixel_y == b.pixel_y
    &&& a.id@ == b.id@
    &&& a.codepoint == b.codepoint
    &&& a.block == b.block
    &&& a.unicode_name@ == b.unicode_name@
}

} // verus!
