//! What the preview charts show, pixel by pixel.
//!
//! The laws here speak of a finished export: of the images and the index that
//! callers get, and of the crops that went in. Positions are those that the index
//! records.
use crate::catalog::Candidate;
use crate::chart::{
    block_text, blocks_of, cell_pic, cells_pic, codepoint_text, compose_fault, crop_metrics,
    crop_of, grid_pic, grid_place, grid_rows, grid_slots_show_their_tiles, header_row,
    header_views, header_y, headers_pic, headers_spec, is_export, is_meta, lacks, lacks_any,
    lacks_canonical,
    legend_pic, legend_y, letter_text, letter_x, margin, matrix_pic,
    matrix_slots_show_their_tiles, platform_x, platforms_pic, rows_never_step_back, run_start,
    sheet_height, sheet_pic, shot, specimens_advance, tallest, tile_pic, tile_row, tile_y, too_large,
    widest,
    Export, Metrics,
};
use crate::font5x7::{glyph_ink, glyphs_are_five_by_seven, text_ink};
use crate::grid::{crop_place, crops_ok, platform_text, Crop, GridFault};
use crate::manifest::module_text;
use crate::raster::{flat, zoomed, Pic, Rgb, EXACT_ZOOM};
use crate::text::numeral;
use vstd::prelude::*;

verus! {

// ---------------------------------------------------------------------------
// Crops and measures
// ---------------------------------------------------------------------------
/// Crop `k` is the one that counts for an icon on a platform: the first of its id
/// there.
pub open spec fn stands_for_icon(crops: Seq<Crop>, k: int, platform: int, id: Seq<char>) -> bool {
    &&& 0 <= k < crops.len()
    &&& crops[k].platform == platform
    &&& crops[k].id@ == id
    &&& forall|j: int|
        0 <= j < k ==> (#[trigger] crops[j]).platform != platform || crops[j].id@ != id
}

proof fn lemma_place(crops: Seq<Crop>, k: int, platform: usize, id: Seq<char>, from: int)
    requires
        stands_for_icon(crops, k, platform as int, id),
        0 <= from <= k,
    ensures
        crop_place(crops, platform, id, from) == k,
    decreases k - from,
{
    if from < k {
        assert(crops[from].platform != platform || crops[from].id@ != id);
        lemma_place(crops, k, platform, id, from + 1);
    }
}

proof fn lemma_extents(crops: Seq<Crop>, n: int)
    requires
        0 <= n <= crops.len(),
    ensures
        forall|k: int|
            0 <= k < n ==> (#[trigger] crops[k]).image.width <= widest(crops, n)
                && crops[k].image.height <= tallest(crops, n),
        n > 0 ==> exists|k: int|
            0 <= k < n && (#[trigger] crops[k]).image.width == widest(crops, n),
        n > 0 ==> exists|k: int|
            0 <= k < n && (#[trigger] crops[k]).image.height == tallest(crops, n),
    decreases n,
{
    if n > 0 {
        lemma_extents(crops, n - 1);
        if crops[n - 1].image.width > widest(crops, n - 1) {
            assert(crops[n - 1].image.width == widest(crops, n));
        } else if n == 1 {
            assert(crops[0].image.width == widest(crops, n));
        } else {
            let k = choose|k: int|
                0 <= k < n - 1 && (#[trigger] crops[k]).image.width == widest(crops, n - 1);
            assert(crops[k].image.width == widest(crops, n));
        }
        if crops[n - 1].image.height > tallest(crops, n - 1) {
            assert(crops[n - 1].image.height == tallest(crops, n));
        } else if n == 1 {
            assert(crops[0].image.height == tallest(crops, n));
        } else {
            let k = choose|k: int|
                0 <= k < n - 1 && (#[trigger] crops[k]).image.height == tallest(crops, n - 1);
            assert(crops[k].image.height == tallest(crops, n));
        }
    }
}

/// The measures of an export, multiplied out.
proof fn lemma_measures(targets: Seq<&Candidate>, crops: Seq<Crop>)
    requires
        compose_fault(targets, crops) is None,
        crops_ok(crops),
    ensures
        ({
            let m = crop_metrics(crops);
            let (w, h) = (
                widest(crops, crops.len() as int),
                tallest(crops, crops.len() as int),
            );
            &&& crops.len() > 0
            &&& m.slot_w == w + 2
            &&& m.slot_h == h + 2
            &&& m.glyph_w == 2 * w
            &&& m.glyph_h == 2 * h
            &&& m.cell_w == specimen_width(w as int)
            &&& m.cell_h == 2 * h + 30
            &&& 3 <= m.cols <= 8
            &&& m.cols * m.cell_w <= 480 || m.cols == 3
            &&& (m.cols + 1) * m.cell_w > 480 || m.cols == 8
            &&& m.sound()
            &&& w >= 1
            &&& h >= 1
            &&& 16 * m.slot_w <= u32::MAX
            &&& grid_rows(blocks_of(targets), 16) * m.slot_h <= u32::MAX
            &&& targets.len() * m.slot_h <= u32::MAX
            &&& m.cols * m.cell_w <= u32::MAX
            &&& sheet_height(blocks_of(targets), m.cols as int, m.cell_h as int) <= u32::MAX
        }),
{
    let m = crop_metrics(crops);
    let n = crops.len() as int;
    let (w, h) = (widest(crops, n), tallest(crops, n));
    lemma_extents(crops, n);
    assert(crops[0].image.width >= 1 && crops[0].image.height >= 1);
    let cell_w = specimen_width(w as int);
    let fit = 480int / cell_w;
    assert(m.cell_w == cell_w);
    assert(fit * cell_w <= 480 && (fit + 1) * cell_w > 480 && 0 <= fit) by (nonlinear_arith)
        requires
            fit == 480int / cell_w,
            cell_w >= 82,
    ;
    assert(m.cols == (if fit < 3 {
        3
    } else if fit > 8 {
        8
    } else {
        fit
    }));
    if fit > 8 {
        assert(9 * cell_w <= fit * cell_w) by (nonlinear_arith)
            requires
                fit >= 9,
                cell_w >= 82,
        ;
    }
    if fit < 3 {
        assert(4 * cell_w >= (fit + 1) * cell_w) by (nonlinear_arith)
            requires
                fit <= 2,
                cell_w >= 82,
        ;
    }
}

// ---------------------------------------------------------------------------
// Grid and matrix
// ---------------------------------------------------------------------------
/// The crop stands in the middle of its slot.
proof fn lemma_tile_middle(crop: Pic, w: int, h: int, x: int, y: int)
    requires
        crop.has(x, y),
        crop.w <= w,
        crop.h <= h,
    ensures
        0 <= (w - crop.w) / 2 + x < w,
        0 <= (h - crop.h) / 2 + y < h,
        tile_pic(crop, w, h).at((w - crop.w) / 2 + x, (h - crop.h) / 2 + y) == crop.at(x, y),
{
    assert(margin(w, crop.w) == (w - crop.w) / 2);
    assert(margin(h, crop.h) == (h - crop.h) / 2);
}

proof fn lemma_inside_slots(a: int, n: int, d: int, size: int)
    requires
        0 <= a < n,
        0 <= d < size,
    ensures
        0 <= a * size + d < n * size,
{
    assert(0 <= a * size + d < n * size) by (nonlinear_arith)
        requires
            0 <= a < n,
            0 <= d < size,
    ;
}

/// The grid shows the Linux crop of every icon, pixel for pixel and unscaled, in
/// the middle of the slot that the index records. All slots have one size: that
/// of the largest crop with one pixel of padding per side.
pub proof fn the_grid_shows_linux_crops_at_the_indexed_slots(
    e: Export,
    targets: Seq<&Candidate>,
    crops: Seq<Crop>,
    names: Map<u32, String>,
    i: int,
    k: int,
    x: int,
    y: int,
)
    requires
        is_export(e, targets, crops, names),
        compose_fault(targets, crops) is None,
        crops_ok(crops),
        0 <= i < targets.len(),
        stands_for_icon(crops, k, 2, targets[i].id@),
        0 <= x < crops[k].image.width,
        0 <= y < crops[k].image.height,
    ensures
        ({
            let (sw, sh) = (e.index.cell_width_px, e.index.cell_height_px);
            let t = e.index.tiles@[i];
            let a = t.grid_col * sw + (sw - crops[k].image.width) / 2 + x;
            let b = t.grid_row * sh + (sh - crops[k].image.height) / 2 + y;
            &&& t.id@ == targets[i].id@
            &&& e.grid.width == 16 * sw
            &&& 0 <= a < e.grid.width
            &&& 0 <= b < e.grid.height
            &&& e.grid.at(a, b) == crops[k].image.at(x, y)
        }),
        forall|j: int|
            0 <= j < crops.len() ==> (#[trigger] crops[j]).image.width + 2 <= e.index.cell_width_px
                && crops[j].image.height + 2 <= e.index.cell_height_px,
        exists|j: int|
            0 <= j < crops.len() && (#[trigger] crops[j]).image.width + 2 == e.index.cell_width_px,
        exists|j: int|
            0 <= j < crops.len() && (#[trigger] crops[j]).image.height + 2
                == e.index.cell_height_px,
{
    let m = crop_metrics(crops);
    let n = targets.len() as int;
    let blocks = blocks_of(targets);
    lemma_measures(targets, crops);
    lemma_extents(crops, crops.len() as int);
    let j = choose|j: int|
        0 <= j < crops.len() && (#[trigger] crops[j]).image.width == widest(
            crops,
            crops.len() as int,
        );
    assert(crops[j].image.width + 2 == e.index.cell_width_px);
    let j2 = choose|j: int|
        0 <= j < crops.len() && (#[trigger] crops[j]).image.height == tallest(
            crops,
            crops.len() as int,
        );
    assert(crops[j2].image.height + 2 == e.index.cell_height_px);
    assert(is_meta(e.index.tiles@[i], targets, names, m, i));
    lemma_place(crops, k, 2, targets[i].id@, 0);
    let pic = crops[k].image.pic();
    assert(shot(targets, crops, i, 2) == pic);
    assert(crops[k].image.width <= widest(crops, crops.len() as int));
    lemma_tile_middle(pic, m.slot_w as int, m.slot_h as int, x, y);
    let (dx, dy) = ((m.slot_w - pic.w) / 2 + x, (m.slot_h - pic.h) / 2 + y);
    grid_slots_show_their_tiles(targets, crops, m, i, n, dx, dy);
    let (r, c) = grid_place(blocks, 16, i);
    lemma_grid_bounds(blocks, i);
    lemma_inside_slots(c, 16, dx, m.slot_w as int);
    lemma_inside_slots(r, grid_rows(blocks, 16), dy, m.slot_h as int);
    assert(grid_pic(targets, crops, m, n).h == grid_rows(blocks, 16) * m.slot_h) by {
        lemma_grid_extent(targets, crops, m, n);
    }
    lemma_grid_extent(targets, crops, m, n);
    assert(e.grid.at(c * m.slot_w + dx, r * m.slot_h + dy) == grid_pic(targets, crops, m, n).at(
        c * m.slot_w + dx,
        r * m.slot_h + dy,
    ));
}

proof fn lemma_grid_extent(targets: Seq<&Candidate>, crops: Seq<Crop>, m: Metrics, n: int)
    ensures
        grid_pic(targets, crops, m, n).w == 16 * m.slot_w,
        grid_pic(targets, crops, m, n).h == grid_rows(blocks_of(targets), 16) * m.slot_h,
    decreases n,
{
    if n > 0 {
        lemma_grid_extent(targets, crops, m, n - 1);
    }
}

proof fn lemma_grid_bounds(blocks: Seq<crate::catalog::Block>, i: int)
    requires
        0 <= i < blocks.len(),
    ensures
        0 <= grid_place(blocks, 16, i).0 < grid_rows(blocks, 16),
        0 <= grid_place(blocks, 16, i).1 < 16,
{
    lemma_grid_low(blocks, i);
    rows_never_step_back(blocks, 16, i, blocks.len() - 1);
}

proof fn lemma_grid_low(blocks: Seq<crate::catalog::Block>, i: int)
    ensures
        0 <= grid_place(blocks, 16, i).0,
        0 <= grid_place(blocks, 16, i).1 < 16,
    decreases i,
{
    if i > 0 {
        lemma_grid_low(blocks, i - 1);
    }
}

/// The matrix shows every icon on every platform, pixel for pixel and unscaled:
/// one row per icon in display order, and one column per platform in the order
/// macos, windows, linux.
pub proof fn the_matrix_shows_every_platform_side_by_side(
    e: Export,
    targets: Seq<&Candidate>,
    crops: Seq<Crop>,
    names: Map<u32, String>,
    i: int,
    p: int,
    k: int,
    x: int,
    y: int,
)
    requires
        is_export(e, targets, crops, names),
        compose_fault(targets, crops) is None,
        crops_ok(crops),
        0 <= i < targets.len(),
        0 <= p < 3,
        stands_for_icon(crops, k, p, targets[i].id@),
        0 <= x < crops[k].image.width,
        0 <= y < crops[k].image.height,
    ensures
        ({
            let (sw, sh) = (e.index.cell_width_px, e.index.cell_height_px);
            let a = p * sw + (sw - crops[k].image.width) / 2 + x;
            let b = i * sh + (sh - crops[k].image.height) / 2 + y;
            &&& e.matrix.width == 3 * sw
            &&& e.matrix.height == targets.len() * sh
            &&& 0 <= a < e.matrix.width
            &&& 0 <= b < e.matrix.height
            &&& e.matrix.at(a, b) == crops[k].image.at(x, y)
        }),
        platform_text(0) == "macos"@,
        platform_text(1) == "windows"@,
        platform_text(2) == "linux"@,
{
    let m = crop_metrics(crops);
    let n = targets.len() as int;
    lemma_measures(targets, crops);
    lemma_extents(crops, crops.len() as int);
    lemma_place(crops, k, p as usize, targets[i].id@, 0);
    let pic = crops[k].image.pic();
    assert(shot(targets, crops, i, p) == pic);
    assert(crops[k].image.width <= widest(crops, crops.len() as int));
    lemma_tile_middle(pic, m.slot_w as int, m.slot_h as int, x, y);
    let (dx, dy) = ((m.slot_w - pic.w) / 2 + x, (m.slot_h - pic.h) / 2 + y);
    matrix_slots_show_their_tiles(targets, crops, m, i, p, 3 * n, dx, dy);
    lemma_inside_slots(p, 3, dx, m.slot_w as int);
    lemma_inside_slots(i, n, dy, m.slot_h as int);
    lemma_matrix_extent(targets, crops, m, 3 * n);
    assert(e.matrix.at(p * m.slot_w + dx, i * m.slot_h + dy) == matrix_pic(
        targets,
        crops,
        m,
        3 * n,
    ).at(p * m.slot_w + dx, i * m.slot_h + dy));
}

proof fn lemma_matrix_extent(targets: Seq<&Candidate>, crops: Seq<Crop>, m: Metrics, k: int)
    ensures
        matrix_pic(targets, crops, m, k).w == 3 * m.slot_w,
        matrix_pic(targets, crops, m, k).h == targets.len() * m.slot_h,
    decreases k,
{
    if k > 0 {
        lemma_matrix_extent(targets, crops, m, k - 1);
    }
}

/// The position shows a pixel of some icon's Linux crop.
pub open spec fn on_a_grid_crop(
    e: Export,
    targets: Seq<&Candidate>,
    crops: Seq<Crop>,
    i: int,
    k: int,
    a: int,
    b: int,
) -> bool {
    let (sw, sh) = (e.index.cell_width_px, e.index.cell_height_px);
    let t = e.index.tiles@[i];
    let x = a - (t.grid_col * sw + (sw - crops[k].image.width) / 2);
    let y = b - (t.grid_row * sh + (sh - crops[k].image.height) / 2);
    &&& 0 <= i < targets.len()
    &&& stands_for_icon(crops, k, 2, targets[i].id@)
    &&& 0 <= x < crops[k].image.width
    &&& 0 <= y < crops[k].image.height
}

/// Everything else of the grid is black: the padding, the separator rows and the
/// slots without an icon.
pub proof fn the_grid_is_black_elsewhere(
    e: Export,
    targets: Seq<&Candidate>,
    crops: Seq<Crop>,
    names: Map<u32, String>,
    a: int,
    b: int,
)
    requires
        is_export(e, targets, crops, names),
        compose_fault(targets, crops) is None,
        crops_ok(crops),
        0 <= a < e.grid.width,
        0 <= b < e.grid.height,
        forall|i: int, k: int| !#[trigger] on_a_grid_crop(e, targets, crops, i, k, a, b),
    ensures
        e.grid.at(a, b) == (0u8, 0u8, 0u8),
{
    lemma_grid_black(e, targets, crops, names, targets.len() as int, a, b);
}

proof fn lemma_grid_black(
    e: Export,
    targets: Seq<&Candidate>,
    crops: Seq<Crop>,
    names: Map<u32, String>,
    n: int,
    a: int,
    b: int,
)
    requires
        is_export(e, targets, crops, names),
        compose_fault(targets, crops) is None,
        crops_ok(crops),
        0 <= n <= targets.len(),
        forall|i: int, k: int| !#[trigger] on_a_grid_crop(e, targets, crops, i, k, a, b),
    ensures
        grid_pic(targets, crops, crop_metrics(crops), n).at(a, b) == (0u8, 0u8, 0u8),
    decreases n,
{
    let m = crop_metrics(crops);
    if n > 0 {
        lemma_grid_black(e, targets, crops, names, n - 1, a, b);
        let i = n - 1;
        lemma_measures(targets, crops);
        lemma_extents(crops, crops.len() as int);
        lemma_not_lacking(targets, crops, i, 2);
        let k = crop_place(crops, 2, targets[i].id@, 0);
        assert(crops[k].image.width <= widest(crops, crops.len() as int));
        assert(is_meta(e.index.tiles@[i], targets, names, m, i));
        assert(!on_a_grid_crop(e, targets, crops, i, k, a, b));
    }
}

/// Every icon of a composed export has a crop on every platform.
proof fn lemma_not_lacking(targets: Seq<&Candidate>, crops: Seq<Crop>, i: int, p: int)
    requires
        compose_fault(targets, crops) is None,
        0 <= i < targets.len(),
        0 <= p < 3,
    ensures
        stands_for_icon(
            crops,
            crop_place(crops, p as usize, targets[i].id@, 0),
            p,
            targets[i].id@,
        ),
{
    lemma_none_lacks(targets, crops, 0, 3 * i + p);
    assert((3 * i + p) / 3 == i && (3 * i + p) % 3 == p);
    assert(!lacks(targets, crops, i, p));
    lemma_place_is_first(crops, p as usize, targets[i].id@, 0);
}

proof fn lemma_none_lacks(targets: Seq<&Candidate>, crops: Seq<Crop>, k: int, j: int)
    requires
        lacks_any(targets, crops, k) is None,
        0 <= k <= j < 3 * targets.len(),
    ensures
        !lacks(targets, crops, j / 3, j % 3),
    decreases j - k,
{
    if k < j {
        lemma_none_lacks(targets, crops, k + 1, j);
    }
}

proof fn lemma_place_is_first(crops: Seq<Crop>, p: usize, id: Seq<char>, from: int)
    requires
        0 <= from <= crops.len(),
        crop_place(crops, p, id, from) < crops.len(),
        forall|j: int|
            0 <= j < from ==> (#[trigger] crops[j]).platform != p || crops[j].id@ != id,
    ensures
        stands_for_icon(crops, crop_place(crops, p, id, from), p as int, id),
    decreases crops.len() - from,
{
    if from < crops.len() && !(crops[from].platform == p && crops[from].id@ == id) {
        lemma_place_is_first(crops, p, id, from + 1);
    }
}

// ---------------------------------------------------------------------------
// Index
// ---------------------------------------------------------------------------
/// How the index lays the icons out, from each icon to the next. On the grid an
/// icon follows on the next of sixteen columns, on the next row where the row is
/// full, and behind a blank row where its block differs. On the specimen sheet it
/// follows likewise, with a named header band in place of the blank row.
#[verifier::rlimit(50)]
pub proof fn the_index_steps_from_icon_to_icon(
    e: Export,
    targets: Seq<&Candidate>,
    crops: Seq<Crop>,
    names: Map<u32, String>,
    i: int,
)
    requires
        is_export(e, targets, crops, names),
        compose_fault(targets, crops) is None,
        crops_ok(crops),
        0 <= i < targets.len(),
    ensures
        e.index.tiles@.len() == targets.len(),
        e.index.columns == 16,
        ({
            let t = e.index.tiles@[i];
            let s = e.index.tiles@[i - 1];
            let cell_h = 2 * (e.index.cell_height_px - 2) + 30;
            &&& t.index == i
            &&& t.block == targets[i].block
            &&& t.codepoint == targets[i].codepoint
            &&& t.id@ == targets[i].id@
            &&& t.unicode_name@ == (if names.contains_key(t.codepoint) {
                names[t.codepoint]@
            } else {
                seq![]
            })
            &&& t.specimen_row == t.canvas_row
            &&& t.specimen_col < e.index.specimen_columns
            &&& i == 0 ==> t.grid_row == 0 && t.grid_col == 0 && t.specimen_col == 0 && t.canvas_row
                == 2 && t.pixel_y == 13 + 22
            &&& i > 0 && t.block != s.block ==> t.grid_row == s.grid_row + 2 && t.grid_col == 0
                && t.specimen_col == 0 && t.canvas_row == s.canvas_row + 2 && t.pixel_y == s.pixel_y
                + cell_h + 22
            &&& i > 0 && t.block == s.block ==> {
                &&& s.grid_col < 15 ==> t.grid_row == s.grid_row && t.grid_col == s.grid_col + 1
                &&& s.grid_col == 15 ==> t.grid_row == s.grid_row + 1 && t.grid_col == 0
                &&& s.specimen_col + 1 < e.index.specimen_columns ==> t.specimen_col
                    == s.specimen_col + 1 && t.canvas_row == s.canvas_row && t.pixel_y == s.pixel_y
                &&& s.specimen_col + 1 == e.index.specimen_columns ==> t.specimen_col == 0
                    && t.canvas_row == s.canvas_row + 1 && t.pixel_y == s.pixel_y + cell_h
            }
        }),
        ({
            let cell_w = specimen_width(e.index.cell_width_px - 2);
            let c = e.index.specimen_columns;
            &&& 3 <= c <= 8
            &&& c * cell_w <= 480 || c == 3
            &&& (c + 1) * cell_w > 480 || c == 8
            &&& e.sheet.width == c * cell_w
        }),
{
    let m = crop_metrics(crops);
    let blocks = blocks_of(targets);
    let cols = m.cols as int;
    let ch = m.cell_h as int;
    lemma_measures(targets, crops);
    lemma_sheet_extent(targets, crops, m);
    assert(is_meta(e.index.tiles@[i], targets, names, m, i));
    lemma_start(blocks, i);
    let s = run_start(blocks, i);
    assert(0 <= (i - s) % cols < cols) by (nonlinear_arith)
        requires
            cols > 0,
    ;
    lemma_grid_low(blocks, i);
    if i == 0 {
        assert(0int % cols == 0 && 0int / cols == 0) by (nonlinear_arith)
            requires
                cols > 0,
        ;
        assert(0 * ch == 0);
    } else {
        assert(is_meta(e.index.tiles@[i - 1], targets, names, m, i - 1));
        assert(blocks[i] == targets[i].block && blocks[i - 1] == targets[i - 1].block);
        lemma_start(blocks, i - 1);
        lemma_grid_low(blocks, i - 1);
        let u = run_start(blocks, i - 1);
        if blocks[i] != blocks[i - 1] {
            assert(s == i);
            assert(0int % cols == 0 && 0int / cols == 0) by (nonlinear_arith)
                requires
                    cols > 0,
            ;
            assert(0 * ch == 0);
            assert(header_y(blocks, cols, ch, i) == tile_y(blocks, cols, ch, i - 1) + ch);
            assert(header_row(blocks, cols, i) == tile_row(blocks, cols, i - 1) + 1);
        } else {
            assert(s == u);
            assert(header_row(blocks, cols, i) == header_row(blocks, cols, i - 1));
            assert(header_y(blocks, cols, ch, i) == header_y(blocks, cols, ch, i - 1));
            let d = i - 1 - u;
            assert(0 <= d % cols < cols) by (nonlinear_arith)
                requires
                    cols > 0,
            ;
            if d % cols + 1 < cols {
                assert((d + 1) % cols == d % cols + 1 && (d + 1) / cols == d / cols)
                    by (nonlinear_arith)
                    requires
                        0 <= d,
                        cols > 0,
                        d % cols + 1 < cols,
                ;
            } else {
                assert((d + 1) % cols == 0 && (d + 1) / cols == d / cols + 1) by (nonlinear_arith)
                    requires
                        0 <= d,
                        cols > 0,
                        d % cols + 1 == cols,
                ;
                let q = d / cols;
                assert((q + 1) * ch == q * ch + ch) by (nonlinear_arith);
            }
        }
    }
}

proof fn lemma_start(blocks: Seq<crate::catalog::Block>, i: int)
    requires
        0 <= i,
    ensures
        0 <= run_start(blocks, i) <= i,
        run_start(blocks, i) == 0 || blocks[run_start(blocks, i)] != blocks[run_start(blocks, i)
            - 1],
        forall|j: int|
            run_start(blocks, i) <= j <= i ==> run_start(blocks, j) == run_start(blocks, i)
                && #[trigger] blocks[j] == blocks[i],
    decreases i,
{
    if i > 0 && blocks[i] == blocks[i - 1] {
        lemma_start(blocks, i - 1);
        assert forall|j: int| run_start(blocks, i) <= j <= i implies run_start(blocks, j)
            == run_start(blocks, i) && #[trigger] blocks[j] == blocks[i] by {
            if j < i {
                assert(blocks[j] == blocks[i - 1]);
            }
        }
    }
}

/// The positions of headers and tiles below the legend.
proof fn lemma_below_legend(blocks: Seq<crate::catalog::Block>, cols: int, ch: int, i: int)
    requires
        0 <= i,
        0 < cols,
        0 < ch,
    ensures
        header_y(blocks, cols, ch, i) >= 13,
        tile_y(blocks, cols, ch, i) >= header_y(blocks, cols, ch, i) + 22,
    decreases i,
{
    lemma_start(blocks, i);
    let s = run_start(blocks, i);
    if s > 0 {
        lemma_below_legend(blocks, cols, ch, s - 1);
    }
    assert(((i - s) / cols) * ch >= 0) by (nonlinear_arith)
        requires
            i >= s,
            cols > 0,
            ch > 0,
    ;
}

/// A run of icons of one block begins at icon `i`.
pub open spec fn begins_a_block(targets: Seq<&Candidate>, i: int) -> bool {
    &&& 0 <= i < targets.len()
    &&& i == 0 || targets[i].block != targets[i - 1].block
}

/// The headers of the specimen sheet are those of the runs of icons of one block,
/// each right above the run's first icon.
#[verifier::rlimit(50)]
pub proof fn headers_stand_above_their_blocks(
    e: Export,
    targets: Seq<&Candidate>,
    crops: Seq<Crop>,
    names: Map<u32, String>,
)
    requires
        is_export(e, targets, crops, names),
        compose_fault(targets, crops) is None,
        crops_ok(crops),
    ensures
        forall|i: int| #[trigger]
            begins_a_block(targets, i) ==> exists|k: int|
                #![trigger e.index.block_header_rows@[k]]
                {
                    let h = e.index.block_header_rows@[k];
                    &&& 0 <= k < e.index.block_header_rows@.len()
                    &&& h.block == targets[i].block
                    &&& h.canvas_row + 1 == e.index.tiles@[i].canvas_row
                    &&& h.pixel_y + 22 == e.index.tiles@[i].pixel_y
                },
        forall|k: int|
            #![trigger e.index.block_header_rows@[k]]
            0 <= k < e.index.block_header_rows@.len() ==> exists|i: int| #[trigger]
                begins_a_block(targets, i) && e.index.block_header_rows@[k].block
                    == targets[i].block && e.index.block_header_rows@[k].canvas_row + 1
                    == e.index.tiles@[i].canvas_row && e.index.block_header_rows@[k].pixel_y + 22
                    == e.index.tiles@[i].pixel_y,
{
    let m = crop_metrics(crops);
    let blocks = blocks_of(targets);
    let n = targets.len() as int;
    let (cols, ch) = (m.cols as int, m.cell_h as int);
    lemma_measures(targets, crops);
    let v = header_views(e.index.block_header_rows@);
    let hs = headers_spec(blocks, cols, ch, n);
    assert(v == hs);
    assert(v.len() == e.index.block_header_rows@.len());
    lemma_headers(targets, cols, ch, n);
    assert forall|i: int| #[trigger] begins_a_block(targets, i) implies exists|k: int|
        #![trigger e.index.block_header_rows@[k]]
        {
            let h = e.index.block_header_rows@[k];
            &&& 0 <= k < e.index.block_header_rows@.len()
            &&& h.block == targets[i].block
            &&& h.canvas_row + 1 == e.index.tiles@[i].canvas_row
            &&& h.pixel_y + 22 == e.index.tiles@[i].pixel_y
        } by {
        assert(is_meta(e.index.tiles@[i], targets, names, m, i));
        let k = choose|k: int| #[trigger] is_header(hs, k, targets, cols, ch, i);
        let h = e.index.block_header_rows@[k];
        assert(v[k] == (h.canvas_row as int, h.block, h.pixel_y as int));
    }
    assert forall|k: int|
        #![trigger e.index.block_header_rows@[k]]
        0 <= k < e.index.block_header_rows@.len() implies exists|i: int| #[trigger]
        begins_a_block(targets, i) && e.index.block_header_rows@[k].block == targets[i].block
            && e.index.block_header_rows@[k].canvas_row + 1 == e.index.tiles@[i].canvas_row
            && e.index.block_header_rows@[k].pixel_y + 22 == e.index.tiles@[i].pixel_y by {
        let h = e.index.block_header_rows@[k];
        assert(v[k] == (h.canvas_row as int, h.block, h.pixel_y as int));
        assert(heads_some(hs, k, targets, cols, ch, n));
        let i = choose|i: int| #[trigger] is_header(hs, k, targets, cols, ch, i);
        assert(is_meta(e.index.tiles@[i], targets, names, m, i));
        assert(begins_a_block(targets, i));
    }
}

/// Header `k` is the one above icon `i`, which begins a block.
spec fn is_header(
    hs: Seq<(int, crate::catalog::Block, int)>,
    k: int,
    targets: Seq<&Candidate>,
    cols: int,
    ch: int,
    i: int,
) -> bool {
    &&& 0 <= k < hs.len()
    &&& begins_a_block(targets, i)
    &&& hs[k].1 == targets[i].block
    &&& hs[k].0 + 1 == tile_row(blocks_of(targets), cols, i)
    &&& hs[k].2 + 22 == tile_y(blocks_of(targets), cols, ch, i)
}

/// Header `k` is the one above one of the first `n` icons.
spec fn heads_some(
    hs: Seq<(int, crate::catalog::Block, int)>,
    k: int,
    targets: Seq<&Candidate>,
    cols: int,
    ch: int,
    n: int,
) -> bool {
    exists|i: int| 0 <= i < n && #[trigger] is_header(hs, k, targets, cols, ch, i)
}

proof fn lemma_headers(targets: Seq<&Candidate>, cols: int, ch: int, n: int)
    requires
        0 <= n <= targets.len(),
        cols > 0,
    ensures
        forall|k: int|
            0 <= k < headers_spec(blocks_of(targets), cols, ch, n).len() ==> #[trigger] heads_some(
                headers_spec(blocks_of(targets), cols, ch, n),
                k,
                targets,
                cols,
                ch,
                n,
            ),
        forall|i: int|
            0 <= i < n && #[trigger] begins_a_block(targets, i) ==> exists|k: int| #[trigger]
                is_header(headers_spec(blocks_of(targets), cols, ch, n), k, targets, cols, ch, i),
    decreases n,
{
    let blocks = blocks_of(targets);
    let hs = headers_spec(blocks, cols, ch, n);
    if n > 0 {
        let init = headers_spec(blocks, cols, ch, n - 1);
        lemma_headers(targets, cols, ch, n - 1);
        let last = n - 1;
        let fresh = run_start(blocks, last) == last;
        assert(blocks[last] == targets[last].block);
        if last > 0 {
            assert(blocks[last - 1] == targets[last - 1].block);
            lemma_start(blocks, last - 1);
        }
        assert(fresh == begins_a_block(targets, last));
        assert(0int / cols == 0) by (nonlinear_arith)
            requires
                cols > 0,
        ;
        assert(0 * ch == 0);
        if fresh {
            assert(is_header(hs, hs.len() - 1, targets, cols, ch, last));
        }
        assert forall|k: int| 0 <= k < hs.len() implies #[trigger] heads_some(
            hs,
            k,
            targets,
            cols,
            ch,
            n,
        ) by {
            if k < init.len() {
                assert(heads_some(init, k, targets, cols, ch, n - 1));
                let i = choose|i: int|
                    0 <= i < n - 1 && #[trigger] is_header(init, k, targets, cols, ch, i);
                assert(is_header(hs, k, targets, cols, ch, i));
            } else {
                assert(is_header(hs, k, targets, cols, ch, last));
            }
        }
        assert forall|i: int| 0 <= i < n && #[trigger] begins_a_block(targets, i) implies exists|
            k: int,
        | #[trigger] is_header(hs, k, targets, cols, ch, i) by {
            if i < last {
                let k = choose|k: int| #[trigger] is_header(init, k, targets, cols, ch, i);
                assert(is_header(hs, k, targets, cols, ch, i));
            } else {
                assert(is_header(hs, hs.len() - 1, targets, cols, ch, i));
            }
        }
    } else {
        assert(hs.len() == 0);
    }
}

proof fn lemma_sheet_extent(targets: Seq<&Candidate>, crops: Seq<Crop>, m: Metrics)
    ensures
        sheet_pic(targets, crops, m).w == m.cols * m.cell_w,
        sheet_pic(targets, crops, m).h == sheet_height(
            blocks_of(targets),
            m.cols as int,
            m.cell_h as int,
        ),
{
    let blocks = blocks_of(targets);
    let n = targets.len() as int;
    let cols = m.cols as int;
    let hs = headers_spec(blocks, cols, m.cell_h as int, n);
    let blank = flat(cols * m.cell_w, sheet_height(blocks, cols, m.cell_h as int), (0, 0, 0));
    lemma_legend_extent(blank, m, 3 * cols);
    let legend = legend_pic(blank, m, 3 * cols);
    lemma_headers_extent(legend, hs, hs.len() as int);
    lemma_cells_extent(headers_pic(legend, hs, hs.len() as int), targets, crops, m, n);
}

proof fn lemma_legend_extent(base: Pic, m: Metrics, k: int)
    ensures
        legend_pic(base, m, k).w == base.w,
        legend_pic(base, m, k).h == base.h,
    decreases k,
{
    if k > 0 {
        lemma_legend_extent(base, m, k - 1);
    }
}

proof fn lemma_headers_extent(base: Pic, hs: Seq<(int, crate::catalog::Block, int)>, k: int)
    ensures
        headers_pic(base, hs, k).w == base.w,
        headers_pic(base, hs, k).h == base.h,
    decreases k,
{
    if k > 0 {
        lemma_headers_extent(base, hs, k - 1);
    }
}

proof fn lemma_cells_extent(
    base: Pic,
    targets: Seq<&Candidate>,
    crops: Seq<Crop>,
    m: Metrics,
    n: int,
)
    ensures
        cells_pic(base, targets, crops, m, n).w == base.w,
        cells_pic(base, targets, crops, m, n).h == base.h,
    decreases n,
{
    if n > 0 {
        lemma_cells_extent(base, targets, crops, m, n - 1);
        lemma_platforms_extent(
            cells_pic(base, targets, crops, m, n - 1),
            targets,
            crops,
            m,
            n - 1,
            3,
        );
    }
}

proof fn lemma_platforms_extent(
    base: Pic,
    targets: Seq<&Candidate>,
    crops: Seq<Crop>,
    m: Metrics,
    i: int,
    p: int,
)
    ensures
        platforms_pic(base, targets, crops, m, i, p).w == base.w,
        platforms_pic(base, targets, crops, m, i, p).h == base.h,
    decreases p,
{
    if p > 0 {
        lemma_platforms_extent(base, targets, crops, m, i, p - 1);
    }
}

// ---------------------------------------------------------------------------
// Legend
// ---------------------------------------------------------------------------
/// A capital letter and the small letter it belongs to.
pub open spec fn is_capital_of(capital: char, small: char) -> bool {
    &&& 'a' as u32 <= small as u32 <= 'z' as u32
    &&& small as u32 - capital as u32 == 'a' as u32 - 'A' as u32
}

/// Width of a specimen cell, where `w` is the width of the widest crop: three
/// crops at twice their size and two gaps of four, but no less than a label of
/// seventy, and six pixels of padding per side.
pub open spec fn specimen_width(w: int) -> int {
    if 6 * w + 8 > 70 {
        6 * w + 20
    } else {
        82
    }
}

/// Left edge of the place that a platform has inside column `c` of the specimen
/// sheet. `w` is the width of the widest crop.
pub open spec fn place_left(w: int, c: int, p: int) -> int {
    c * specimen_width(w) + 6 + p * (2 * w + 4)
}

/// Left edge of the legend letter over that place, five pixels wide.
pub open spec fn letter_left(w: int, c: int, p: int) -> int {
    if 2 * w > 5 {
        place_left(w, c, p) + (2 * w - 5) / 2
    } else {
        place_left(w, c, p)
    }
}

/// The capital of the first letter of a platform's label inks the position.
pub open spec fn capital_inks(p: int, x: int, y: int) -> bool {
    exists|letter: char|
        is_capital_of(letter, platform_text(p)[0]) && #[trigger] glyph_ink(letter, x, y)
}

/// The legend inks the position with the letter over place `p` of column `c`:
/// the capital of the first letter of that platform's label, five pixels wide
/// over the middle of the place.
pub open spec fn letter_inks(w: int, c: int, p: int, cols: int, a: int, b: int) -> bool {
    &&& 0 <= c < cols
    &&& 0 <= p < 3
    &&& capital_inks(p, a - letter_left(w, c, p), b - 3)
}

proof fn lemma_one_capital(a: char, b: char, small: char)
    requires
        is_capital_of(a, small),
        is_capital_of(b, small),
    ensures
        a == b,
{
}

proof fn lemma_letter(p: int)
    requires
        0 <= p < 3,
    ensures
        letter_text(p).len() == 1,
        is_capital_of(letter_text(p)[0], platform_text(p)[0]),
{
    reveal_strlit("M");
    reveal_strlit("W");
    reveal_strlit("L");
    reveal_strlit("macos");
    reveal_strlit("windows");
    reveal_strlit("linux");
}

proof fn lemma_letter_inks(m: Metrics, w: int, c: int, p: int, a: int, b: int)
    requires
        0 <= c < m.cols,
        0 <= p < 3,
        m.glyph_w == 2 * w,
        m.cell_w == specimen_width(w),
    ensures
        text_ink(letter_text(p), 1, a - letter_x(m, c, p), b - legend_y()) == letter_inks(
            w,
            c,
            p,
            m.cols as int,
            a,
            b,
        ),
{
    lemma_letter(p);
    let letter = letter_text(p)[0];
    glyphs_are_five_by_seven(letter);
    let left = letter_left(w, c, p);
    assert(letter_x(m, c, p) == left);
    let (dx, dy) = (a - left, b - 3);
    assert(legend_y() == 3);
    if glyph_ink(letter, dx, dy) {
        assert(dx / 6 == 0 && dx % 6 == dx);
    }
    if letter_inks(w, c, p, m.cols as int, a, b) {
        let other = choose|l: char|
            is_capital_of(l, platform_text(p)[0]) && #[trigger] glyph_ink(l, dx, dy);
        lemma_one_capital(letter, other, platform_text(p)[0]);
    }
}

proof fn lemma_legend(base: Pic, m: Metrics, w: int, k: int, a: int, b: int)
    requires
        0 <= k <= 3 * m.cols,
        m.glyph_w == 2 * w,
        m.cell_w == specimen_width(w),
        forall|x: int, y: int| base.at(x, y) == (0u8, 0u8, 0u8),
    ensures
        legend_pic(base, m, k).at(a, b) == (0u8, 0u8, 0u8) || legend_pic(base, m, k).at(a, b) == (
            200u8,
            200u8,
            200u8,
        ),
        legend_pic(base, m, k).at(a, b) == (200u8, 200u8, 200u8) <==> exists|c: int, p: int|
            3 * c + p < k && #[trigger] letter_inks(w, c, p, m.cols as int, a, b),
    decreases k,
{
    if k > 0 {
        lemma_legend(base, m, w, k - 1, a, b);
        let (c, p) = ((k - 1) / 3, (k - 1) % 3);
        lemma_letter_inks(m, w, c, p, a, b);
        if letter_inks(w, c, p, m.cols as int, a, b) {
            assert(3 * c + p < k);
        }
        if exists|c: int, p: int|
            3 * c + p < k - 1 && #[trigger] letter_inks(w, c, p, m.cols as int, a, b) {
            let (c2, p2) = choose|c: int, p: int|
                3 * c + p < k - 1 && #[trigger] letter_inks(w, c, p, m.cols as int, a, b);
            assert(3 * c2 + p2 < k && letter_inks(w, c2, p2, m.cols as int, a, b));
        }
        if exists|c: int, p: int|
            3 * c + p < k && #[trigger] letter_inks(w, c, p, m.cols as int, a, b) {
            let (c2, p2) = choose|c: int, p: int|
                3 * c + p < k && #[trigger] letter_inks(w, c, p, m.cols as int, a, b);
            if 3 * c2 + p2 == k - 1 {
                assert(c2 == c && p2 == p);
            } else {
                assert(3 * c2 + p2 < k - 1 && letter_inks(w, c2, p2, m.cols as int, a, b));
            }
        }
    }
}

/// Headers leave every position alone that lies above all of them.
proof fn lemma_headers_above(
    base: Pic,
    hs: Seq<(int, crate::catalog::Block, int)>,
    k: int,
    a: int,
    b: int,
)
    requires
        0 <= k <= hs.len(),
        forall|j: int| 0 <= j < k ==> b < (#[trigger] hs[j]).2 + 4,
    ensures
        headers_pic(base, hs, k).at(a, b) == base.at(a, b),
    decreases k,
{
    if k > 0 {
        lemma_headers_above(base, hs, k - 1, a, b);
        assert(b < hs[k - 1].2 + 4);
    }
}

/// A cell changes positions inside its own rectangle alone.
proof fn lemma_cell_inside(
    base: Pic,
    targets: Seq<&Candidate>,
    crops: Seq<Crop>,
    i: int,
    a: int,
    b: int,
)
    requires
        compose_fault(targets, crops) is None,
        crops_ok(crops),
        0 <= i < targets.len(),
        targets[i].codepoint <= 0xFFFF,
        ({
            let m = crop_metrics(crops);
            let blocks = blocks_of(targets);
            let c = (i - run_start(blocks, i)) % (m.cols as int);
            let y = tile_y(blocks, m.cols as int, m.cell_h as int, i);
            ||| b < y
            ||| b >= y + m.cell_h
            ||| a < c * m.cell_w
            ||| a >= c * m.cell_w + m.cell_w
        }),
    ensures
        cell_pic(base, targets, crops, crop_metrics(crops), i).at(a, b) == base.at(a, b),
{
    let m = crop_metrics(crops);
    let blocks = blocks_of(targets);
    let c = (i - run_start(blocks, i)) % (m.cols as int);
    let y = tile_y(blocks, m.cols as int, m.cell_h as int, i);
    lemma_measures(targets, crops);
    lemma_platforms_inside(base, targets, crops, i, 3, a, b);
    let s = codepoint_text(targets[i].codepoint);
    lemma_codepoint_text(targets[i].codepoint);
    let (dx, dy) = (
        a - (c * m.cell_w + (m.cell_w - 70) / 2),
        b - (y + 5 + m.glyph_h + 6),
    );
    lemma_text_extent(s, dx, dy);
}

/// Text at twice the size inks columns and rows of its own box alone.
proof fn lemma_text_extent(s: Seq<char>, dx: int, dy: int)
    ensures
        text_ink(s, 2, dx, dy) ==> 0 <= dx < 12 * s.len() - 2 && 0 <= dy < 14,
{
    if text_ink(s, 2, dx, dy) {
        glyphs_are_five_by_seven(s[dx / 12]);
    }
}

proof fn lemma_codepoint_text(codepoint: u32)
    requires
        codepoint <= 0xFFFF,
    ensures
        codepoint_text(codepoint).len() == 6,
{
    let n = codepoint as nat;
    assert(n / 16 <= 0xFFF && n / 16 / 16 <= 0xFF && n / 16 / 16 / 16 <= 0xF);
    reveal_with_fuel(numeral, 5);
}

proof fn lemma_platforms_inside(
    base: Pic,
    targets: Seq<&Candidate>,
    crops: Seq<Crop>,
    i: int,
    p: int,
    a: int,
    b: int,
)
    requires
        compose_fault(targets, crops) is None,
        crops_ok(crops),
        0 <= i < targets.len(),
        0 <= p <= 3,
        ({
            let m = crop_metrics(crops);
            let blocks = blocks_of(targets);
            let c = (i - run_start(blocks, i)) % (m.cols as int);
            let y = tile_y(blocks, m.cols as int, m.cell_h as int, i);
            ||| b < y + 5
            ||| b >= y + 5 + m.glyph_h
            ||| a < c * m.cell_w + 6
            ||| a >= c * m.cell_w + 6 + 3 * m.glyph_w + 8
        }),
    ensures
        platforms_pic(base, targets, crops, crop_metrics(crops), i, p).at(a, b) == base.at(a, b),
    decreases p,
{
    let m = crop_metrics(crops);
    if p > 0 {
        lemma_platforms_inside(base, targets, crops, i, p - 1, a, b);
        lemma_measures(targets, crops);
        lemma_extents(crops, crops.len() as int);
        lemma_not_lacking(targets, crops, i, p - 1);
        let k = crop_place(crops, (p - 1) as usize, targets[i].id@, 0);
        let crop = crop_of(targets, crops, i, p - 1);
        assert(crop == crops[k].image);
        assert(crop.width <= widest(crops, crops.len() as int));
        let g = zoomed(crop);
        assert(g.w == 2 * crop.width && g.h == 2 * crop.height);
        let step = m.glyph_w + 4;
        assert((p - 1) * step <= 2 * step && 0 <= (p - 1) * step) by (nonlinear_arith)
            requires
                0 <= p - 1 <= 2,
                step >= 0,
        ;
    }
}

/// Cells leave every position alone that lies above all of them.
proof fn lemma_cells_above(
    base: Pic,
    targets: Seq<&Candidate>,
    crops: Seq<Crop>,
    n: int,
    a: int,
    b: int,
)
    requires
        compose_fault(targets, crops) is None,
        crops_ok(crops),
        0 <= n <= targets.len(),
        b < 35,
    ensures
        cells_pic(base, targets, crops, crop_metrics(crops), n).at(a, b) == base.at(a, b),
    decreases n,
{
    let m = crop_metrics(crops);
    if n > 0 {
        lemma_cells_above(base, targets, crops, n - 1, a, b);
        lemma_measures(targets, crops);
        lemma_below_legend(blocks_of(targets), m.cols as int, m.cell_h as int, n - 1);
        let before = cells_pic(base, targets, crops, m, n - 1);
        lemma_platforms_inside(before, targets, crops, n - 1, 3, a, b);
    }
}

/// The legend over the specimen sheet names the platforms. Over the place of each
/// column into which the crops of a platform are laid stands the capital first
/// letter of that platform's label, and nothing else stands in the band.
pub proof fn the_legend_names_the_platform_under_it(
    e: Export,
    targets: Seq<&Candidate>,
    crops: Seq<Crop>,
    names: Map<u32, String>,
    a: int,
    b: int,
)
    requires
        is_export(e, targets, crops, names),
        compose_fault(targets, crops) is None,
        crops_ok(crops),
        0 <= a < e.sheet.width,
        0 <= b < 13,
    ensures
        ({
            let w = e.index.cell_width_px - 2;
            let cols = e.index.specimen_columns as int;
            &&& (exists|c: int, p: int| #[trigger] letter_inks(w, c, p, cols, a, b))
                ==> e.sheet.at(a, b) == (200u8, 200u8, 200u8)
            &&& (forall|c: int, p: int| !#[trigger] letter_inks(w, c, p, cols, a, b))
                ==> e.sheet.at(a, b) == (0u8, 0u8, 0u8)
        }),
        platform_text(0) == "macos"@,
        platform_text(1) == "windows"@,
        platform_text(2) == "linux"@,
{
    let m = crop_metrics(crops);
    let blocks = blocks_of(targets);
    let n = targets.len() as int;
    let (cols, ch) = (m.cols as int, m.cell_h as int);
    let w = widest(crops, crops.len() as int) as int;
    lemma_measures(targets, crops);
    lemma_sheet_extent(targets, crops, m);
    let hs = headers_spec(blocks, cols, ch, n);
    let blank = flat(cols * m.cell_w, sheet_height(blocks, cols, ch), (0, 0, 0));
    let legend = legend_pic(blank, m, 3 * cols);
    let named = headers_pic(legend, hs, hs.len() as int);
    lemma_cells_above(named, targets, crops, n, a, b);
    lemma_headers(targets, cols, ch, n);
    assert forall|j: int| 0 <= j < hs.len() implies b < (#[trigger] hs[j]).2 + 4 by {
        assert(heads_some(hs, j, targets, cols, ch, n));
        let i = choose|i: int| 0 <= i < n && #[trigger] is_header(hs, j, targets, cols, ch, i);
        lemma_below_legend(blocks, cols, ch, i);
        lemma_start(blocks, i);
        lemma_header_top(targets, cols, ch, i);
    }
    lemma_headers_above(legend, hs, hs.len() as int, a, b);
    lemma_legend(blank, m, w, 3 * cols, a, b);
    if n > 0 {
        lemma_below_legend(blocks, cols, ch, n - 1);
    }
    assert(e.sheet.at(a, b) == legend.at(a, b));
    assert(e.index.cell_width_px - 2 == w);
    assert(e.index.specimen_columns == cols);
    if exists|c: int, p: int| #[trigger] letter_inks(w, c, p, cols, a, b) {
        let (c, p) = choose|c: int, p: int| #[trigger] letter_inks(w, c, p, cols, a, b);
        assert(3 * c + p < 3 * cols && letter_inks(w, c, p, cols, a, b));
        assert(legend.at(a, b) == (200u8, 200u8, 200u8));
    } else {
        assert(legend.at(a, b) == (0u8, 0u8, 0u8));
    }
}

/// The legend band shows the capital first letter of each platform's label over its
/// place in every column, and nothing else.
pub open spec fn legend_names_platforms(e: Export) -> bool {
    forall|a: int, b: int|
        0 <= a < e.sheet.width && 0 <= b < 13 ==> #[trigger] e.sheet.at(a, b) == legend_pixel(
            e,
            a,
            b,
        )
}

/// The color of a position in the legend band.
pub open spec fn legend_pixel(e: Export, a: int, b: int) -> Rgb {
    if exists|c: int, p: int| #[trigger]
        letter_inks(
            e.index.cell_width_px - 2,
            c,
            p,
            e.index.specimen_columns as int,
            a,
            b,
        ) {
        (200u8, 200u8, 200u8)
    } else {
        (0u8, 0u8, 0u8)
    }
}

/// Every export has that legend.
pub proof fn legends_name_platforms(
    e: Export,
    targets: Seq<&Candidate>,
    crops: Seq<Crop>,
    names: Map<u32, String>,
)
    requires
        is_export(e, targets, crops, names),
        compose_fault(targets, crops) is None,
        crops_ok(crops),
    ensures
        legend_names_platforms(e),
{
    assert forall|a: int, b: int|
        0 <= a < e.sheet.width && 0 <= b < 13 implies #[trigger] e.sheet.at(a, b) == legend_pixel(
        e,
        a,
        b,
    ) by {
        the_legend_names_the_platform_under_it(e, targets, crops, names, a, b);
    }
}

/// The first icon of a block stands right below the header.
proof fn lemma_header_top(targets: Seq<&Candidate>, cols: int, ch: int, i: int)
    requires
        begins_a_block(targets, i),
        cols > 0,
    ensures
        tile_y(blocks_of(targets), cols, ch, i) == header_y(blocks_of(targets), cols, ch, i) + 22,
{
    let blocks = blocks_of(targets);
    assert(blocks[i] == targets[i].block);
    if i > 0 {
        assert(blocks[i - 1] == targets[i - 1].block);
    }
    assert(run_start(blocks, i) == i);
    assert(0int / cols == 0) by (nonlinear_arith)
        requires
            cols > 0,
    ;
    assert(0 * ch == 0);
}

// ---------------------------------------------------------------------------
// Specimens
// ---------------------------------------------------------------------------
/// Where cells and header bands stand to one another.
proof fn lemma_bands(blocks: Seq<crate::catalog::Block>, cols: int, ch: int, s: int, i: int)
    requires
        0 <= s < blocks.len(),
        0 <= i < blocks.len(),
        run_start(blocks, s) == s,
        0 < cols,
        0 < ch,
    ensures
        i < s ==> tile_y(blocks, cols, ch, i) + ch <= header_y(blocks, cols, ch, s),
        i >= s ==> tile_y(blocks, cols, ch, i) >= header_y(blocks, cols, ch, s) + 22,
{
    assert(0int / cols == 0) by (nonlinear_arith)
        requires
            cols > 0,
    ;
    assert(0 * ch == 0);
    if i < s {
        if i < s - 1 {
            specimens_advance(blocks, cols, ch, i, s - 1);
        }
    } else if i > s {
        specimens_advance(blocks, cols, ch, s, i);
    }
}

/// Cells that come later leave the rectangle of an earlier cell alone.
proof fn lemma_cells_keep(
    base: Pic,
    targets: Seq<&Candidate>,
    crops: Seq<Crop>,
    i: int,
    n: int,
    a: int,
    b: int,
)
    requires
        compose_fault(targets, crops) is None,
        crops_ok(crops),
        0 <= i < n <= targets.len(),
        forall|j: int|
            0 <= j < targets.len() ==> (#[trigger] targets[j]).codepoint <= 0xFFFF,
        ({
            let m = crop_metrics(crops);
            let blocks = blocks_of(targets);
            let c = (i - run_start(blocks, i)) % (m.cols as int);
            let y = tile_y(blocks, m.cols as int, m.cell_h as int, i);
            &&& y <= b < y + m.cell_h
            &&& c * m.cell_w <= a < c * m.cell_w + m.cell_w
        }),
    ensures
        cells_pic(base, targets, crops, crop_metrics(crops), n).at(a, b) == cells_pic(
            base,
            targets,
            crops,
            crop_metrics(crops),
            i + 1,
        ).at(a, b),
    decreases n,
{
    if n > i + 1 {
        lemma_cells_keep(base, targets, crops, i, n - 1, a, b);
        lemma_apart(targets, crops, i, n - 1, a, b);
        let before = cells_pic(base, targets, crops, crop_metrics(crops), n - 1);
        lemma_cell_inside(before, targets, crops, n - 1, a, b);
    }
}

/// A position in one cell is in no other.
proof fn lemma_apart(
    targets: Seq<&Candidate>,
    crops: Seq<Crop>,
    i: int,
    j: int,
    a: int,
    b: int,
)
    requires
        compose_fault(targets, crops) is None,
        crops_ok(crops),
        0 <= i < targets.len(),
        0 <= j < targets.len(),
        i != j,
        ({
            let m = crop_metrics(crops);
            let blocks = blocks_of(targets);
            let c = (i - run_start(blocks, i)) % (m.cols as int);
            let y = tile_y(blocks, m.cols as int, m.cell_h as int, i);
            &&& y <= b < y + m.cell_h
            &&& c * m.cell_w <= a < c * m.cell_w + m.cell_w
        }),
    ensures
        ({
            let m = crop_metrics(crops);
            let blocks = blocks_of(targets);
            let c = (j - run_start(blocks, j)) % (m.cols as int);
            let y = tile_y(blocks, m.cols as int, m.cell_h as int, j);
            ||| b < y
            ||| b >= y + m.cell_h
            ||| a < c * m.cell_w
            ||| a >= c * m.cell_w + m.cell_w
        }),
{
    let m = crop_metrics(crops);
    let blocks = blocks_of(targets);
    let (cols, ch, cw) = (m.cols as int, m.cell_h as int, m.cell_w as int);
    lemma_measures(targets, crops);
    let ci = (i - run_start(blocks, i)) % cols;
    let cj = (j - run_start(blocks, j)) % cols;
    if i < j {
        specimens_advance(blocks, cols, ch, i, j);
    } else {
        specimens_advance(blocks, cols, ch, j, i);
    }
    if ci < cj {
        assert(ci * cw + cw <= cj * cw) by (nonlinear_arith)
            requires
                ci + 1 <= cj,
                cw >= 0,
        ;
    }
    if cj < ci {
        assert(cj * cw + cw <= ci * cw) by (nonlinear_arith)
            requires
                cj + 1 <= ci,
                cw >= 0,
        ;
    }
}

/// Cells leave every position alone that lies outside all of them.
proof fn lemma_cells_outside(
    base: Pic,
    targets: Seq<&Candidate>,
    crops: Seq<Crop>,
    n: int,
    a: int,
    b: int,
)
    requires
        compose_fault(targets, crops) is None,
        crops_ok(crops),
        0 <= n <= targets.len(),
        forall|j: int|
            0 <= j < n ==> (#[trigger] targets[j]).codepoint <= 0xFFFF && ({
                let m = crop_metrics(crops);
                let blocks = blocks_of(targets);
                let c = (j - run_start(blocks, j)) % (m.cols as int);
                let y = tile_y(blocks, m.cols as int, m.cell_h as int, j);
                ||| b < y
                ||| b >= y + m.cell_h
                ||| a < c * m.cell_w
                ||| a >= c * m.cell_w + m.cell_w
            }),
    ensures
        cells_pic(base, targets, crops, crop_metrics(crops), n).at(a, b) == base.at(a, b),
    decreases n,
{
    if n > 0 {
        lemma_cells_outside(base, targets, crops, n - 1, a, b);
        let before = cells_pic(base, targets, crops, crop_metrics(crops), n - 1);
        assert(targets[n - 1].codepoint <= 0xFFFF);
        lemma_cell_inside(before, targets, crops, n - 1, a, b);
    }
}

/// The place of platform `p` shows that platform's crop at twice its size.
proof fn lemma_platform_place(
    base: Pic,
    targets: Seq<&Candidate>,
    crops: Seq<Crop>,
    i: int,
    p: int,
    q: int,
    k: int,
    x: int,
    y: int,
)
    requires
        compose_fault(targets, crops) is None,
        crops_ok(crops),
        0 <= i < targets.len(),
        0 <= p < q <= 3,
        stands_for_icon(crops, k, p, targets[i].id@),
        crops[k].image.width <= EXACT_ZOOM,
        crops[k].image.height <= EXACT_ZOOM,
        0 <= x < 2 * crops[k].image.width,
        0 <= y < 2 * crops[k].image.height,
    ensures
        ({
            let m = crop_metrics(crops);
            let blocks = blocks_of(targets);
            let c = (i - run_start(blocks, i)) % (m.cols as int);
            let w = widest(crops, crops.len() as int) as int;
            let h = tallest(crops, crops.len() as int) as int;
            let top = tile_y(blocks, m.cols as int, m.cell_h as int, i);
            platforms_pic(base, targets, crops, m, i, q).at(
                place_left(w, c, p) + (w - crops[k].image.width) + x,
                top + 5 + (h - crops[k].image.height) + y,
            ) == crops[k].image.at(x / 2, y / 2)
        }),
    decreases q,
{
    let m = crop_metrics(crops);
    let blocks = blocks_of(targets);
    let c = (i - run_start(blocks, i)) % (m.cols as int);
    let w = widest(crops, crops.len() as int) as int;
    let h = tallest(crops, crops.len() as int) as int;
    let top = tile_y(blocks, m.cols as int, m.cell_h as int, i);
    lemma_measures(targets, crops);
    lemma_extents(crops, crops.len() as int);
    assert(crops[k].image.width <= w && crops[k].image.height <= h);
    let step = 2 * w + 4;
    if q == p + 1 {
        lemma_place(crops, k, p as usize, targets[i].id@, 0);
        let g = zoomed(crops[k].image);
        assert(crop_of(targets, crops, i, p) == crops[k].image);
        assert(g.w == 2 * crops[k].image.width);
        assert(margin(m.glyph_w as int, g.w) == w - crops[k].image.width);
        assert(margin(m.glyph_h as int, g.h) == h - crops[k].image.height);
        assert(platform_x(m, c, p) == place_left(w, c, p));
        assert(g.has(x, y));
        assert(g.at(x, y) == crops[k].image.pic().at(x / 2, y / 2));
    } else {
        lemma_platform_place(base, targets, crops, i, p, q - 1, k, x, y);
        lemma_not_lacking(targets, crops, i, q - 1);
        let l = crop_place(crops, (q - 1) as usize, targets[i].id@, 0);
        assert(crops[l].image.width <= w);
        let g = zoomed(crops[l].image);
        assert(crop_of(targets, crops, i, q - 1) == crops[l].image);
        assert(g.w == 2 * crops[l].image.width);
        assert(platform_x(m, c, q - 1) == place_left(w, c, q - 1));
        assert(p * step + step <= (q - 1) * step) by (nonlinear_arith)
            requires
                p + 1 <= q - 1,
                step >= 0,
        ;
    }
}

/// Every specimen shows its icon's crop of every platform at twice its size, one
/// beside the other in the order of the platforms, each in the middle of its
/// place. The cell stands where the index records it.
#[verifier::rlimit(50)]
pub proof fn specimens_show_every_platform_doubled(
    e: Export,
    targets: Seq<&Candidate>,
    crops: Seq<Crop>,
    names: Map<u32, String>,
    i: int,
    p: int,
    k: int,
    x: int,
    y: int,
)
    requires
        is_export(e, targets, crops, names),
        compose_fault(targets, crops) is None,
        crops_ok(crops),
        forall|j: int| 0 <= j < targets.len() ==> (#[trigger] targets[j]).codepoint <= 0xFFFF,
        0 <= i < targets.len(),
        0 <= p < 3,
        stands_for_icon(crops, k, p, targets[i].id@),
        crops[k].image.width <= EXACT_ZOOM,
        crops[k].image.height <= EXACT_ZOOM,
        0 <= x < 2 * crops[k].image.width,
        0 <= y < 2 * crops[k].image.height,
    ensures
        ({
            let (w, h) = (e.index.cell_width_px - 2, e.index.cell_height_px - 2);
            let t = e.index.tiles@[i];
            let a = place_left(w, t.specimen_col as int, p) + (w - crops[k].image.width) + x;
            let b = t.pixel_y + 5 + (h - crops[k].image.height) + y;
            &&& t.specimen_col < e.index.specimen_columns
            &&& 0 <= a < e.sheet.width
            &&& 0 <= b < e.sheet.height
            &&& e.sheet.at(a, b) == crops[k].image.at(x / 2, y / 2)
        }),
{
    let m = crop_metrics(crops);
    let blocks = blocks_of(targets);
    let n = targets.len() as int;
    let (cols, ch, cw) = (m.cols as int, m.cell_h as int, m.cell_w as int);
    let c = (i - run_start(blocks, i)) % cols;
    let w = widest(crops, crops.len() as int) as int;
    let h = tallest(crops, crops.len() as int) as int;
    let top = tile_y(blocks, cols, ch, i);
    lemma_measures(targets, crops);
    lemma_extents(crops, crops.len() as int);
    lemma_sheet_extent(targets, crops, m);
    assert(crops[k].image.width <= w && crops[k].image.height <= h);
    assert(is_meta(e.index.tiles@[i], targets, names, m, i));
    let hs = headers_spec(blocks, cols, ch, n);
    let blank = flat(cols * m.cell_w, sheet_height(blocks, cols, ch), (0, 0, 0));
    let legend = legend_pic(blank, m, 3 * cols);
    let named = headers_pic(legend, hs, hs.len() as int);
    let before = cells_pic(named, targets, crops, m, i);
    lemma_platform_place(before, targets, crops, i, p, 3, k, x, y);
    let a = place_left(w, c, p) + (w - crops[k].image.width) + x;
    let b = top + 5 + (h - crops[k].image.height) + y;
    let step = 2 * w + 4;
    assert(0 <= p * step <= 2 * step) by (nonlinear_arith)
        requires
            0 <= p <= 2,
            step >= 0,
    ;
    assert(0 <= c < cols) by (nonlinear_arith)
        requires
            c == (i - run_start(blocks, i)) % cols,
            cols > 0,
    ;
    assert(c * cw <= a < c * cw + cw);
    lemma_inside_slots(c, cols, a - c * cw, cw);
    lemma_cells_keep(named, targets, crops, i, n, a, b);
    lemma_below_legend(blocks, cols, ch, i);
    if i < n - 1 {
        specimens_advance(blocks, cols, ch, i, n - 1);
    }
    assert(e.sheet.at(a, b) == sheet_pic(targets, crops, m).at(a, b));
    lemma_text_extent(
        codepoint_text(targets[i].codepoint),
        a - (c * cw + (cw - 70) / 2),
        b - (top + 5 + m.glyph_h + 6),
    );
}

/// The header ink at a position.
spec fn header_inks(hs: Seq<(int, crate::catalog::Block, int)>, j: int, a: int, b: int) -> bool {
    text_ink(block_text(hs[j].1), 2, a - 6, b - (hs[j].2 + 4))
}

proof fn lemma_headers_ink(
    base: Pic,
    hs: Seq<(int, crate::catalog::Block, int)>,
    q: int,
    a: int,
    b: int,
)
    requires
        0 <= q <= hs.len(),
    ensures
        (exists|j: int| 0 <= j < q && #[trigger] header_inks(hs, j, a, b)) ==> headers_pic(
            base,
            hs,
            q,
        ).at(a, b) == (200u8, 200u8, 200u8),
        (forall|j: int| 0 <= j < q ==> !#[trigger] header_inks(hs, j, a, b)) ==> headers_pic(
            base,
            hs,
            q,
        ).at(a, b) == base.at(a, b),
    decreases q,
{
    if q > 0 {
        lemma_headers_ink(base, hs, q - 1, a, b);
        assert(header_inks(hs, q - 1, a, b) == text_ink(
            block_text(hs[q - 1].1),
            2,
            a - 6,
            b - (hs[q - 1].2 + 4),
        ));
        if !header_inks(hs, q - 1, a, b) && exists|j: int|
            0 <= j < q && #[trigger] header_inks(hs, j, a, b) {
            let j = choose|j: int| 0 <= j < q && #[trigger] header_inks(hs, j, a, b);
            assert(0 <= j < q - 1 && header_inks(hs, j, a, b));
        }
    }
}

/// The legend inks no row from the tenth on.
proof fn lemma_legend_above(m: Metrics, base: Pic, k: int, a: int, b: int)
    requires
        b >= 10,
    ensures
        legend_pic(base, m, k).at(a, b) == base.at(a, b),
    decreases k,
{
    if k > 0 {
        lemma_legend_above(m, base, k - 1, a, b);
        let s = letter_text((k - 1) % 3);
        let dx = a - letter_x(m, (k - 1) / 3, (k - 1) % 3);
        if text_ink(s, 1, dx, b - legend_y()) {
            glyphs_are_five_by_seven(s[dx / 6]);
        }
    }
}

/// Every header band of the specimen sheet holds the display name of its block at
/// twice the size of the font, and nothing else.
#[verifier::rlimit(50)]
pub proof fn header_bands_name_their_block(
    e: Export,
    targets: Seq<&Candidate>,
    crops: Seq<Crop>,
    names: Map<u32, String>,
    k: int,
    a: int,
    dy: int,
)
    requires
        is_export(e, targets, crops, names),
        compose_fault(targets, crops) is None,
        crops_ok(crops),
        forall|j: int| 0 <= j < targets.len() ==> (#[trigger] targets[j]).codepoint <= 0xFFFF,
        0 <= k < e.index.block_header_rows@.len(),
        0 <= a < e.sheet.width,
        0 <= dy < 22,
    ensures
        ({
            let h = e.index.block_header_rows@[k];
            &&& h.pixel_y + dy < e.sheet.height
            &&& e.sheet.at(a, h.pixel_y + dy) == (if text_ink(
                block_text(h.block),
                2,
                a - 6,
                dy - 4,
            ) {
                (200u8, 200u8, 200u8)
            } else {
                (0u8, 0u8, 0u8)
            })
        }),
{
    let m = crop_metrics(crops);
    let blocks = blocks_of(targets);
    let n = targets.len() as int;
    let (cols, ch) = (m.cols as int, m.cell_h as int);
    lemma_measures(targets, crops);
    lemma_sheet_extent(targets, crops, m);
    let v = header_views(e.index.block_header_rows@);
    let hs = headers_spec(blocks, cols, ch, n);
    assert(v == hs);
    let h = e.index.block_header_rows@[k];
    assert(v[k] == (h.canvas_row as int, h.block, h.pixel_y as int));
    let b = h.pixel_y + dy;
    lemma_headers(targets, cols, ch, n);
    assert(heads_some(hs, k, targets, cols, ch, n));
    let s = choose|i: int| 0 <= i < n && #[trigger] is_header(hs, k, targets, cols, ch, i);
    lemma_header_top(targets, cols, ch, s);
    lemma_begins(targets, s);
    lemma_below_legend(blocks, cols, ch, s);
    assert(h.pixel_y == header_y(blocks, cols, ch, s));
    let blank = flat(cols * m.cell_w, sheet_height(blocks, cols, ch), (0, 0, 0));
    let legend = legend_pic(blank, m, 3 * cols);
    let named = headers_pic(legend, hs, hs.len() as int);
    assert forall|j: int|
        0 <= j < n implies (#[trigger] targets[j]).codepoint <= 0xFFFF && ({
        let c = (j - run_start(blocks, j)) % (m.cols as int);
        let y = tile_y(blocks, m.cols as int, m.cell_h as int, j);
        ||| b < y
        ||| b >= y + m.cell_h
        ||| a < c * m.cell_w
        ||| a >= c * m.cell_w + m.cell_w
    }) by {
        lemma_bands(blocks, cols, ch, s, j);
    }
    lemma_cells_outside(named, targets, crops, n, a, b);
    lemma_headers_ink(legend, hs, hs.len() as int, a, b);
    lemma_legend_above(m, blank, 3 * cols, a, b);
    assert(header_inks(hs, k, a, b) == text_ink(block_text(h.block), 2, a - 6, dy - 4));
    if !header_inks(hs, k, a, b) {
        assert forall|j: int| 0 <= j < hs.len() implies !#[trigger] header_inks(hs, j, a, b) by {
            assert(heads_some(hs, j, targets, cols, ch, n));
            let t = choose|i: int| 0 <= i < n && #[trigger] is_header(hs, j, targets, cols, ch, i);
            lemma_header_top(targets, cols, ch, t);
            lemma_begins(targets, t);
            lemma_text_extent(block_text(hs[j].1), a - 6, b - (hs[j].2 + 4));
            if t < s {
                lemma_bands(blocks, cols, ch, s, t);
            } else if t > s {
                lemma_bands(blocks, cols, ch, t, s);
            }
        }
    }
    lemma_bands(blocks, cols, ch, s, n - 1);
    assert(e.sheet.at(a, b) == named.at(a, b));
}

/// A run begins where its first icon stands.
proof fn lemma_begins(targets: Seq<&Candidate>, i: int)
    requires
        begins_a_block(targets, i),
    ensures
        run_start(blocks_of(targets), i) == i,
{
    let blocks = blocks_of(targets);
    assert(blocks[i] == targets[i].block);
    if i > 0 {
        assert(blocks[i - 1] == targets[i - 1].block);
    }
}

/// Before a cell is drawn its rectangle is black.
proof fn lemma_cell_ground(targets: Seq<&Candidate>, crops: Seq<Crop>, i: int, a: int, b: int)
    requires
        compose_fault(targets, crops) is None,
        crops_ok(crops),
        forall|j: int| 0 <= j < targets.len() ==> (#[trigger] targets[j]).codepoint <= 0xFFFF,
        0 <= i < targets.len(),
        ({
            let m = crop_metrics(crops);
            let blocks = blocks_of(targets);
            let c = (i - run_start(blocks, i)) % (m.cols as int);
            let y = tile_y(blocks, m.cols as int, m.cell_h as int, i);
            &&& y <= b < y + m.cell_h
            &&& c * m.cell_w <= a < c * m.cell_w + m.cell_w
        }),
    ensures
        ({
            let m = crop_metrics(crops);
            let blocks = blocks_of(targets);
            let (cols, ch) = (m.cols as int, m.cell_h as int);
            let hs = headers_spec(blocks, cols, ch, targets.len() as int);
            let blank = flat(cols * m.cell_w, sheet_height(blocks, cols, ch), (0, 0, 0));
            let named = headers_pic(legend_pic(blank, m, 3 * cols), hs, hs.len() as int);
            cells_pic(named, targets, crops, m, i).at(a, b) == (0u8, 0u8, 0u8)
        }),
{
    let m = crop_metrics(crops);
    let blocks = blocks_of(targets);
    let n = targets.len() as int;
    let (cols, ch) = (m.cols as int, m.cell_h as int);
    lemma_measures(targets, crops);
    let hs = headers_spec(blocks, cols, ch, n);
    let blank = flat(cols * m.cell_w, sheet_height(blocks, cols, ch), (0, 0, 0));
    let legend = legend_pic(blank, m, 3 * cols);
    let named = headers_pic(legend, hs, hs.len() as int);
    lemma_below_legend(blocks, cols, ch, i);
    assert forall|j: int|
        0 <= j < i implies (#[trigger] targets[j]).codepoint <= 0xFFFF && ({
        let c = (j - run_start(blocks, j)) % (m.cols as int);
        let y = tile_y(blocks, m.cols as int, m.cell_h as int, j);
        ||| b < y
        ||| b >= y + m.cell_h
        ||| a < c * m.cell_w
        ||| a >= c * m.cell_w + m.cell_w
    }) by {
        lemma_apart(targets, crops, i, j, a, b);
    }
    lemma_cells_outside(named, targets, crops, i, a, b);
    lemma_headers_ink(legend, hs, hs.len() as int, a, b);
    lemma_legend_above(m, blank, 3 * cols, a, b);
    lemma_headers(targets, cols, ch, n);
    assert forall|j: int| 0 <= j < hs.len() implies !#[trigger] header_inks(hs, j, a, b) by {
        assert(heads_some(hs, j, targets, cols, ch, n));
        let t = choose|i: int| 0 <= i < n && #[trigger] is_header(hs, j, targets, cols, ch, i);
        lemma_header_top(targets, cols, ch, t);
        lemma_begins(targets, t);
        lemma_text_extent(block_text(hs[j].1), a - 6, b - (hs[j].2 + 4));
        lemma_bands(blocks, cols, ch, t, i);
    }
}

/// Under its three crops every specimen carries its codepoint, at twice the size
/// of the font and over the middle of the cell, and nothing else.
#[verifier::rlimit(50)]
pub proof fn specimens_carry_their_codepoint(
    e: Export,
    targets: Seq<&Candidate>,
    crops: Seq<Crop>,
    names: Map<u32, String>,
    i: int,
    dx: int,
    dy: int,
)
    requires
        is_export(e, targets, crops, names),
        compose_fault(targets, crops) is None,
        crops_ok(crops),
        forall|j: int| 0 <= j < targets.len() ==> (#[trigger] targets[j]).codepoint <= 0xFFFF,
        0 <= i < targets.len(),
        0 <= dx < specimen_width(e.index.cell_width_px - 2),
        0 <= dy < 19,
    ensures
        ({
            let cw = specimen_width(e.index.cell_width_px - 2);
            let t = e.index.tiles@[i];
            let a = t.specimen_col * cw + dx;
            let b = t.pixel_y + 2 * (e.index.cell_height_px - 2) + 11 + dy;
            &&& 0 <= a < e.sheet.width
            &&& 0 <= b < e.sheet.height
            &&& e.sheet.at(a, b) == (if text_ink(
                codepoint_text(t.codepoint),
                2,
                dx - (cw - 70) / 2,
                dy,
            ) {
                (200u8, 200u8, 200u8)
            } else {
                (0u8, 0u8, 0u8)
            })
        }),
{
    let m = crop_metrics(crops);
    let blocks = blocks_of(targets);
    let n = targets.len() as int;
    let (cols, ch, cw) = (m.cols as int, m.cell_h as int, m.cell_w as int);
    let c = (i - run_start(blocks, i)) % cols;
    let top = tile_y(blocks, cols, ch, i);
    lemma_measures(targets, crops);
    lemma_sheet_extent(targets, crops, m);
    assert(is_meta(e.index.tiles@[i], targets, names, m, i));
    let hs = headers_spec(blocks, cols, ch, n);
    let blank = flat(cols * m.cell_w, sheet_height(blocks, cols, ch), (0, 0, 0));
    let legend = legend_pic(blank, m, 3 * cols);
    let named = headers_pic(legend, hs, hs.len() as int);
    let before = cells_pic(named, targets, crops, m, i);
    let (a, b) = (c * cw + dx, top + m.glyph_h + 11 + dy);
    assert(0 <= c < cols) by (nonlinear_arith)
        requires
            c == (i - run_start(blocks, i)) % cols,
            cols > 0,
    ;
    lemma_inside_slots(c, cols, dx, cw);
    lemma_cells_keep(named, targets, crops, i, n, a, b);
    lemma_below_legend(blocks, cols, ch, i);
    if i < n - 1 {
        specimens_advance(blocks, cols, ch, i, n - 1);
    }
    lemma_platforms_inside(before, targets, crops, i, 3, a, b);
    lemma_cell_ground(targets, crops, i, a, b);
    assert(before.at(a, b) == (0u8, 0u8, 0u8));
    assert(e.sheet.at(a, b) == sheet_pic(targets, crops, m).at(a, b));
    assert(a - (c * cw + (cw - 70) / 2) == dx - (cw - 70) / 2);
}

// ---------------------------------------------------------------------------
// What the charts need
// ---------------------------------------------------------------------------
/// Some crop stands for the icon on the platform.
pub open spec fn has_crop(crops: Seq<Crop>, p: int, id: Seq<char>) -> bool {
    exists|k: int| 0 <= k < crops.len() && (#[trigger] crops[k]).platform == p && crops[k].id@ == id
}

proof fn lemma_has_crop(targets: Seq<&Candidate>, crops: Seq<Crop>, i: int, p: int)
    requires
        0 <= p < 3,
    ensures
        lacks(targets, crops, i, p) == !has_crop(crops, p, targets[i].id@),
{
    let id = targets[i].id@;
    let k = crop_place(crops, p as usize, id, 0);
    if k < crops.len() {
        lemma_place_is_first(crops, p as usize, id, 0);
        assert(crops[k].platform == p && crops[k].id@ == id);
    } else if has_crop(crops, p, id) {
        let j = choose|j: int|
            0 <= j < crops.len() && (#[trigger] crops[j]).platform == p && crops[j].id@ == id;
        lemma_found_in_time(crops, p as usize, id, 0, j);
    }
}

proof fn lemma_found_in_time(crops: Seq<Crop>, p: usize, id: Seq<char>, from: int, j: int)
    requires
        0 <= from <= j < crops.len(),
        crops[j].platform == p,
        crops[j].id@ == id,
    ensures
        crop_place(crops, p, id, from) <= j,
    decreases j - from,
{
    if from < j {
        lemma_found_in_time(crops, p, id, from + 1, j);
    }
}

proof fn lemma_lacks_canonical(targets: Seq<&Candidate>, crops: Seq<Crop>, from: int, i: int)
    requires
        0 <= from <= targets.len(),
    ensures
        lacks_canonical(targets, crops, from) is None && from <= i < targets.len() ==> has_crop(
            crops,
            2,
            targets[i].id@,
        ),
        from <= i < targets.len() && !has_crop(crops, 2, targets[i].id@) && (forall|j: int|
            from <= j < i ==> has_crop(crops, 2, (#[trigger] targets[j]).id@)) ==> lacks_canonical(
            targets,
            crops,
            from,
        ) == Some(GridFault::MissingCrop(2, targets[i].id@)),
        (forall|j: int| from <= j < targets.len() ==> has_crop(crops, 2, (#[trigger] targets[j]).id@))
            ==> lacks_canonical(targets, crops, from) is None,
    decreases targets.len() - from,
{
    if from < targets.len() {
        lemma_has_crop(targets, crops, from, 2);
        lemma_lacks_canonical(targets, crops, from + 1, i);
        assert(targets[from].id@ == targets[from].id@);
    }
}

proof fn lemma_lacks_any(targets: Seq<&Candidate>, crops: Seq<Crop>, from: int, n: int)
    requires
        0 <= from <= 3 * targets.len(),
        lacks_any(targets, crops, from) is None,
        from <= n < 3 * targets.len(),
    ensures
        has_crop(crops, n % 3, targets[n / 3].id@),
    decreases n - from,
{
    lemma_has_crop(targets, crops, from / 3, from % 3);
    if from < n {
        lemma_lacks_any(targets, crops, from + 1, n);
    }
}

proof fn lemma_any_lacking(targets: Seq<&Candidate>, crops: Seq<Crop>, from: int)
    requires
        0 <= from <= 3 * targets.len(),
    ensures
        match lacks_any(targets, crops, from) {
            None => true,
            Some(f) => exists|i: int, p: int|
                0 <= i < targets.len() && 0 <= p < 3 && #[trigger] missing(f, targets, crops, i, p),
        },
    decreases 3 * targets.len() - from,
{
    if from < 3 * targets.len() {
        lemma_has_crop(targets, crops, from / 3, from % 3);
        if lacks(targets, crops, from / 3, from % 3) {
            assert(missing(
                GridFault::MissingCrop(from % 3, targets[from / 3].id@),
                targets,
                crops,
                from / 3,
                from % 3,
            ));
        } else {
            lemma_any_lacking(targets, crops, from + 1);
        }
    }
}

/// The fault names the platform and the icon of a crop that is missing.
pub open spec fn missing(
    f: GridFault,
    targets: Seq<&Candidate>,
    crops: Seq<Crop>,
    i: int,
    p: int,
) -> bool {
    f == GridFault::MissingCrop(p, targets[i].id@) && !has_crop(crops, p, targets[i].id@)
}

/// Charts are made when every icon has a crop on every platform, there are crops at
/// all, and the images are not too large. Otherwise what is missing is named, an
/// icon without a Linux crop first.
pub proof fn charts_need_every_crop(targets: Seq<&Candidate>, crops: Seq<Crop>, i: int, p: int)
    requires
        0 <= i < targets.len(),
        0 <= p < 3,
    ensures
        crops.len() == 0 ==> compose_fault(targets, crops) == Some(GridFault::NoCrops),
        compose_fault(targets, crops) is None ==> crops.len() > 0 && has_crop(
            crops,
            p,
            targets[i].id@,
        ),
        crops.len() > 0 && !too_large(targets, crops) && !has_crop(crops, 2, targets[i].id@) && (
        forall|j: int| 0 <= j < i ==> has_crop(crops, 2, (#[trigger] targets[j]).id@))
            ==> compose_fault(targets, crops) == Some(GridFault::MissingCrop(2, targets[i].id@)),
        crops.len() > 0 && !too_large(targets, crops) && (forall|j: int|
            0 <= j < targets.len() ==> has_crop(crops, 2, (#[trigger] targets[j]).id@))
            && compose_fault(targets, crops) is Some ==> exists|j: int, q: int|
            0 <= j < targets.len() && 0 <= q < 3 && #[trigger] missing(
                compose_fault(targets, crops)->Some_0,
                targets,
                crops,
                j,
                q,
            ),
{
    lemma_lacks_canonical(targets, crops, 0, i);
    lemma_any_lacking(targets, crops, 0);
    if compose_fault(targets, crops) is None {
        lemma_lacks_any(targets, crops, 0, 3 * i + p);
        assert((3 * i + p) / 3 == i && (3 * i + p) % 3 == p);
    }
}

// ---------------------------------------------------------------------------
// The rest of the charts
// ---------------------------------------------------------------------------
/// The position shows a pixel of some icon's crop on some platform.
pub open spec fn on_a_matrix_crop(
    e: Export,
    targets: Seq<&Candidate>,
    crops: Seq<Crop>,
    i: int,
    p: int,
    k: int,
    a: int,
    b: int,
) -> bool {
    let (sw, sh) = (e.index.cell_width_px, e.index.cell_height_px);
    let x = a - (p * sw + (sw - crops[k].image.width) / 2);
    let y = b - (i * sh + (sh - crops[k].image.height) / 2);
    &&& 0 <= i < targets.len()
    &&& 0 <= p < 3
    &&& stands_for_icon(crops, k, p, targets[i].id@)
    &&& 0 <= x < crops[k].image.width
    &&& 0 <= y < crops[k].image.height
}

/// Everything else of the matrix is black.
pub proof fn the_matrix_is_black_elsewhere(
    e: Export,
    targets: Seq<&Candidate>,
    crops: Seq<Crop>,
    names: Map<u32, String>,
    a: int,
    b: int,
)
    requires
        is_export(e, targets, crops, names),
        compose_fault(targets, crops) is None,
        crops_ok(crops),
        0 <= a < e.matrix.width,
        0 <= b < e.matrix.height,
        forall|i: int, p: int, k: int|
            !#[trigger] on_a_matrix_crop(e, targets, crops, i, p, k, a, b),
    ensures
        e.matrix.at(a, b) == (0u8, 0u8, 0u8),
{
    lemma_matrix_black(e, targets, crops, names, 3 * targets.len() as int, a, b);
}

proof fn lemma_matrix_black(
    e: Export,
    targets: Seq<&Candidate>,
    crops: Seq<Crop>,
    names: Map<u32, String>,
    n: int,
    a: int,
    b: int,
)
    requires
        is_export(e, targets, crops, names),
        compose_fault(targets, crops) is None,
        crops_ok(crops),
        0 <= n <= 3 * targets.len(),
        forall|i: int, p: int, k: int|
            !#[trigger] on_a_matrix_crop(e, targets, crops, i, p, k, a, b),
    ensures
        matrix_pic(targets, crops, crop_metrics(crops), n).at(a, b) == (0u8, 0u8, 0u8),
    decreases n,
{
    if n > 0 {
        lemma_matrix_black(e, targets, crops, names, n - 1, a, b);
        let (i, p) = ((n - 1) / 3, (n - 1) % 3);
        lemma_measures(targets, crops);
        lemma_extents(crops, crops.len() as int);
        lemma_not_lacking(targets, crops, i, p);
        let k = crop_place(crops, p as usize, targets[i].id@, 0);
        assert(crops[k].image.width <= widest(crops, crops.len() as int));
        assert(!on_a_matrix_crop(e, targets, crops, i, p, k, a, b));
    }
}

/// The position lies on the doubled crop of the icon on the platform.
pub open spec fn on_a_specimen(
    e: Export,
    targets: Seq<&Candidate>,
    crops: Seq<Crop>,
    i: int,
    p: int,
    k: int,
    a: int,
    b: int,
) -> bool {
    let (w, h) = (e.index.cell_width_px - 2, e.index.cell_height_px - 2);
    let t = e.index.tiles@[i];
    let x = a - (place_left(w, t.specimen_col as int, p) + (w - crops[k].image.width));
    let y = b - (t.pixel_y + 5 + (h - crops[k].image.height));
    &&& 0 <= p < 3
    &&& stands_for_icon(crops, k, p, targets[i].id@)
    &&& 0 <= x < 2 * crops[k].image.width
    &&& 0 <= y < 2 * crops[k].image.height
}

proof fn lemma_platforms_uncovered(
    base: Pic,
    e: Export,
    targets: Seq<&Candidate>,
    crops: Seq<Crop>,
    names: Map<u32, String>,
    i: int,
    q: int,
    a: int,
    b: int,
)
    requires
        is_export(e, targets, crops, names),
        compose_fault(targets, crops) is None,
        crops_ok(crops),
        0 <= i < targets.len(),
        0 <= q <= 3,
        forall|p: int, k: int| !#[trigger] on_a_specimen(e, targets, crops, i, p, k, a, b),
    ensures
        platforms_pic(base, targets, crops, crop_metrics(crops), i, q).at(a, b) == base.at(a, b),
    decreases q,
{
    let m = crop_metrics(crops);
    if q > 0 {
        let p = q - 1;
        lemma_platforms_uncovered(base, e, targets, crops, names, i, p, a, b);
        lemma_measures(targets, crops);
        lemma_extents(crops, crops.len() as int);
        lemma_not_lacking(targets, crops, i, p);
        let k = crop_place(crops, p as usize, targets[i].id@, 0);
        let w = widest(crops, crops.len() as int) as int;
        assert(crops[k].image.width <= w);
        assert(crop_of(targets, crops, i, p) == crops[k].image);
        let g = zoomed(crops[k].image);
        assert(g.w == 2 * crops[k].image.width && g.h == 2 * crops[k].image.height);
        assert(is_meta(e.index.tiles@[i], targets, names, m, i));
        let c = e.index.tiles@[i].specimen_col as int;
        assert(platform_x(m, c, p) == place_left(w, c, p));
        assert(!on_a_specimen(e, targets, crops, i, p, k, a, b));
    }
}

/// Beside and between its crops a specimen is black, down to the label.
#[verifier::rlimit(50)]
pub proof fn specimens_are_black_beside_their_crops(
    e: Export,
    targets: Seq<&Candidate>,
    crops: Seq<Crop>,
    names: Map<u32, String>,
    i: int,
    dx: int,
    dy: int,
)
    requires
        is_export(e, targets, crops, names),
        compose_fault(targets, crops) is None,
        crops_ok(crops),
        forall|j: int| 0 <= j < targets.len() ==> (#[trigger] targets[j]).codepoint <= 0xFFFF,
        0 <= i < targets.len(),
        0 <= dx < specimen_width(e.index.cell_width_px - 2),
        0 <= dy < 2 * (e.index.cell_height_px - 2) + 11,
        forall|p: int, k: int|
            !#[trigger] on_a_specimen(
                e,
                targets,
                crops,
                i,
                p,
                k,
                e.index.tiles@[i].specimen_col * specimen_width(e.index.cell_width_px - 2) + dx,
                e.index.tiles@[i].pixel_y + dy,
            ),
    ensures
        e.sheet.at(
            e.index.tiles@[i].specimen_col * specimen_width(e.index.cell_width_px - 2) + dx,
            e.index.tiles@[i].pixel_y + dy,
        ) == (0u8, 0u8, 0u8),
{
    let m = crop_metrics(crops);
    let blocks = blocks_of(targets);
    let n = targets.len() as int;
    let (cols, ch, cw) = (m.cols as int, m.cell_h as int, m.cell_w as int);
    let c = (i - run_start(blocks, i)) % cols;
    let top = tile_y(blocks, cols, ch, i);
    lemma_measures(targets, crops);
    lemma_sheet_extent(targets, crops, m);
    assert(is_meta(e.index.tiles@[i], targets, names, m, i));
    let hs = headers_spec(blocks, cols, ch, n);
    let blank = flat(cols * m.cell_w, sheet_height(blocks, cols, ch), (0, 0, 0));
    let legend = legend_pic(blank, m, 3 * cols);
    let named = headers_pic(legend, hs, hs.len() as int);
    let before = cells_pic(named, targets, crops, m, i);
    let (a, b) = (c * cw + dx, top + dy);
    assert(0 <= c < cols) by (nonlinear_arith)
        requires
            c == (i - run_start(blocks, i)) % cols,
            cols > 0,
    ;
    lemma_inside_slots(c, cols, dx, cw);
    lemma_cells_keep(named, targets, crops, i, n, a, b);
    lemma_below_legend(blocks, cols, ch, i);
    if i < n - 1 {
        specimens_advance(blocks, cols, ch, i, n - 1);
    }
    lemma_cell_ground(targets, crops, i, a, b);
    lemma_platforms_uncovered(before, e, targets, crops, names, i, 3, a, b);
    assert(e.sheet.at(a, b) == sheet_pic(targets, crops, m).at(a, b));
}

/// The charts end with their last icon: the grid with its row, the sheet with its
/// cell. The labels under the specimens read as codepoints do.
pub proof fn charts_end_with_their_last_icon(
    e: Export,
    targets: Seq<&Candidate>,
    crops: Seq<Crop>,
    names: Map<u32, String>,
    codepoint: u32,
)
    requires
        is_export(e, targets, crops, names),
        compose_fault(targets, crops) is None,
        crops_ok(crops),
        targets.len() > 0,
    ensures
        ({
            let t = e.index.tiles@[targets.len() - 1];
            &&& e.index.schema_version == 4
            &&& e.index.tiles@.len() == targets.len()
            &&& e.grid.height == (t.grid_row + 1) * e.index.cell_height_px
            &&& e.sheet.height == t.pixel_y + 2 * (e.index.cell_height_px - 2) + 30
            &&& codepoint_text(codepoint) == seq!['U', '+'] + numeral(codepoint as nat, 16, 4)
        }),
{
    let m = crop_metrics(crops);
    let n = targets.len() as int;
    lemma_measures(targets, crops);
    lemma_sheet_extent(targets, crops, m);
    lemma_grid_extent(targets, crops, m, n);
    assert(is_meta(e.index.tiles@[n - 1], targets, names, m, n - 1));
}

/// The display name of a block is its module name in capitals, with spaces between
/// the words.
pub proof fn display_names_are_module_names_in_capitals(block: crate::catalog::Block, k: int)
    requires
        0 <= k < module_text(block).len(),
    ensures
        block_text(block).len() == module_text(block).len(),
        module_text(block)[k] == '_' ==> block_text(block)[k] == ' ',
        module_text(block)[k] != '_' ==> is_capital_of(block_text(block)[k], module_text(block)[k]),
{
    reveal_strlit("ascii");
    reveal_strlit("arrows");
    reveal_strlit("box_drawing");
    reveal_strlit("block_elements");
    reveal_strlit("geometric_shapes");
    reveal_strlit("misc_symbols");
    reveal_strlit("dingbats");
    reveal_strlit("braille");
    reveal_strlit("ASCII");
    reveal_strlit("ARROWS");
    reveal_strlit("BOX DRAWING");
    reveal_strlit("BLOCK ELEMENTS");
    reveal_strlit("GEOMETRIC SHAPES");
    reveal_strlit("MISC SYMBOLS");
    reveal_strlit("DINGBATS");
    reveal_strlit("BRAILLE");
}

} // verus!
