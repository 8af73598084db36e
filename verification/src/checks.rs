//! Pass-2 glyph assertions over fixed-grid cell boxes.
//!
//! * **Visibility** uses block-aware adaptive thresholds: Braille needs only
//!   two thousandths of ink coverage, every other block twenty (a single-dot
//!   pattern like `U+2801` covers under a hundredth of its cell). The
//!   tofu-outline heuristic is exempt for Braille: a lone dot is inherently a
//!   hollow outline.
//! * **Bleed** compares sentinel B's crop against the clean reference from the
//!   control row and scans the gutters on both sides of the icon for intrusion.
use crate::catalog::Block;
use crate::geom::{
    any_in_columns, any_in_rows, extent, fg, ink_in_columns, ink_in_rows, lemma_nearest_monotone,
    round_px, Band, Calibration, CellBox, FgModel,
};
use crate::raster::{Gray, GrayImage};
use vstd::prelude::*;

verus! {

/// Assertion thresholds, in thousandths.
#[derive(Clone, Copy, Debug, PartialEq, Eq, Structural)]
pub struct Thresholds {
    /// Minimum ink share of a cell outside Braille.
    pub eps_default: u32,
    /// Minimum ink share for Braille cells.
    pub eps_braille: u32,
    /// Symmetric-difference tolerance against the reference B crop.
    pub bleed_max: u32,
    /// Tofu detection: the ink's bounding box must occupy at least this share
    /// of the cell box on each axis.
    pub tofu_bbox_min_ratio: u32,
    /// Tofu detection: maximum interior fill share of that bounding box.
    pub tofu_interior_max_ratio: u32,
}

/// The thresholds used unless others are asked for.
pub open spec fn default_thresholds() -> Thresholds {
    Thresholds {
        eps_default: 20,
        eps_braille: 2,
        bleed_max: 350,
        tofu_bbox_min_ratio: 550,
        tofu_interior_max_ratio: 150,
    }
}

impl Default for Thresholds {
    fn default() -> (t: Self)
        ensures
            t == default_thresholds(),
    {
        Thresholds {
            eps_default: 20,
            eps_braille: 2,
            bleed_max: 350,
            tofu_bbox_min_ratio: 550,
            tofu_interior_max_ratio: 150,
        }
    }
}

/// Why a candidate's icon cell failed visibility.
#[derive(Clone, Copy, Debug, PartialEq, Eq, Structural)]
pub enum InvisibleReason {
    /// Too little ink.
    Blank,
    /// A hollow missing-glyph outline.
    TofuBox,
}

/// Result of the bleed check on sentinel B.
#[derive(Clone, Copy, Debug, PartialEq, Eq, Structural)]
pub enum BleedVerdict {
    /// Nothing reached B.
    Clean,
    /// Ink in the gutter, or B's crop differs from the reference.
    Intrusion,
}

// ---------------------------------------------------------------------------
// Ink counting
// ---------------------------------------------------------------------------
/// First position after `hi` that is still inside an axis of `size` pixels.
pub open spec fn clip_end(hi: u32, size: u32) -> int {
    if hi < size {
        hi + 1
    } else {
        size as int
    }
}

fn clip(hi: u32, size: u32) -> (end: u32)
    ensures
        end == clip_end(hi, size),
        end <= size,
{
    if hi < size {
        hi + 1
    } else {
        size
    }
}

/// Ink pixels of row `y` in the columns `x0..x1`.
pub open spec fn row_count(g: Gray, m: FgModel, x0: int, x1: int, y: int) -> nat
    decreases x1 - x0,
{
    if x1 <= x0 {
        0
    } else {
        row_count(g, m, x0, x1 - 1, y) + (if fg(g, m, x1 - 1, y) {
            1nat
        } else {
            0
        })
    }
}

/// Ink pixels in the columns `x0..x1` of the rows `y0..y1`.
pub open spec fn area_count(
    g: Gray,
    m: FgModel,
    x0: int,
    x1: int,
    y0: int,
    y1: int,
) -> nat
    decreases y1 - y0,
{
    if y1 <= y0 {
        0
    } else {
        area_count(g, m, x0, x1, y0, y1 - 1) + row_count(g, m, x0, x1, y1 - 1)
    }
}

/// Ink pixels of the box that lie inside the image.
pub open spec fn ink_count(g: Gray, m: FgModel, b: CellBox) -> nat {
    area_count(
        g,
        m,
        b.left as int,
        clip_end(b.right, g.width),
        b.top as int,
        clip_end(b.bottom, g.height),
    )
}

proof fn lemma_row_count_bound(g: Gray, m: FgModel, x0: int, x1: int, y: int)
    requires
        x0 <= x1,
    ensures
        row_count(g, m, x0, x1, y) <= x1 - x0,
    decreases x1 - x0,
{
    if x0 < x1 {
        lemma_row_count_bound(g, m, x0, x1 - 1, y);
    }
}

fn count_area(
    gray: &GrayImage,
    model: &FgModel,
    x0: u32,
    x1: u32,
    y0: u32,
    y1: u32,
) -> (n: u64)
    requires
        gray.wf(),
        x1 <= gray.width,
        y1 <= gray.height,
    ensures
        n == area_count(gray@, *model, x0 as int, x1 as int, y0 as int, y1 as int),
        n <= 0xffff_ffff * 0xffff_ffff,
{
    if y0 >= y1 || x0 >= x1 {
        proof {
            if y0 < y1 {
                lemma_no_columns(gray@, *model, x0 as int, x1 as int, y0 as int, y1 as int);
            }
        }
        return 0;
    }
    let mut n: u64 = 0;
    for y in y0..y1
        invariant
            gray.wf(),
            x0 < x1 <= gray.width,
            y1 <= gray.height,
            n == area_count(gray@, *model, x0 as int, x1 as int, y0 as int, y as int),
            n <= (y - y0) * 0xffff_ffff,
    {
        let mut row: u64 = 0;
        for x in x0..x1
            invariant
                gray.wf(),
                x1 <= gray.width,
                y < y1 <= gray.height,
                row == row_count(gray@, *model, x0 as int, x as int, y as int),
                row <= x - x0,
        {
            if model.is_fg(gray, x, y) {
                row += 1;
            }
        }
        n += row;
    }
    n
}

proof fn lemma_no_columns(
    g: Gray,
    m: FgModel,
    x0: int,
    x1: int,
    y0: int,
    y1: int,
)
    requires
        x1 <= x0,
    ensures
        area_count(g, m, x0, x1, y0, y1) == 0,
    decreases y1 - y0,
{
    if y0 < y1 {
        lemma_no_columns(g, m, x0, x1, y0, y1 - 1);
    }
}

fn fg_count(gray: &GrayImage, model: &FgModel, b: &CellBox) -> (n: u64)
    requires
        gray.wf(),
    ensures
        n == ink_count(gray@, *model, *b),
        n <= 0xffff_ffff * 0xffff_ffff,
{
    count_area(
        gray,
        model,
        b.left,
        clip(b.right, gray.width),
        b.top,
        clip(b.bottom, gray.height),
    )
}

// ---------------------------------------------------------------------------
// Tofu outline
// ---------------------------------------------------------------------------
/// First position in `lo..hi` whose flag is set, else `hi`.
pub open spec fn first_set(f: Seq<bool>) -> int
    decreases f.len(),
{
    if f.len() == 0 || f[0] {
        0
    } else {
        1 + first_set(f.skip(1))
    }
}

/// Last position whose flag is set, else -1.
pub open spec fn last_set(f: Seq<bool>) -> int
    decreases f.len(),
{
    if f.len() == 0 {
        -1
    } else if f.last() {
        f.len() - 1
    } else {
        last_set(f.drop_last())
    }
}

proof fn lemma_first_set(f: Seq<bool>, i: int)
    requires
        0 <= i <= f.len(),
        forall|j: int| 0 <= j < i ==> !f[j],
        i < f.len() ==> f[i],
    ensures
        first_set(f) == i,
    decreases i,
{
    if i > 0 {
        assert(!f[0]);
        lemma_first_set(f.skip(1), i - 1);
    }
}

proof fn lemma_last_set(f: Seq<bool>, i: int)
    requires
        -1 <= i < f.len(),
        forall|j: int| i < j < f.len() ==> !f[j],
        i >= 0 ==> f[i],
    ensures
        last_set(f) == i,
    decreases f.len() - i,
{
    if i < f.len() - 1 {
        lemma_last_set(f.drop_last(), i);
    }
}

/// Positions of the first and the last set flag.
fn set_range(flags: &[bool]) -> (r: Option<(u32, u32)>)
    requires
        flags@.len() <= u32::MAX,
    ensures
        match r {
            None => first_set(flags@) == flags@.len() && last_set(flags@) == -1,
            Some(v) => v.0 == first_set(flags@) && v.1 == last_set(flags@) && v.0 <= v.1
                && v.1 < flags@.len(),
        },
{
    let n = flags.len();
    let mut first: usize = 0;
    while first < n && !flags[first]
        invariant
            n == flags@.len(),
            first <= n,
            forall|j: int| 0 <= j < first ==> !flags@[j],
        decreases n - first,
    {
        first += 1;
    }
    proof {
        lemma_first_set(flags@, first as int);
    }
    if first == n {
        proof {
            lemma_last_set(flags@, -1);
        }
        return None;
    }
    let mut last = n - 1;
    while !flags[last]
        invariant
            n == flags@.len(),
            first <= last < n,
            flags@[first as int],
            forall|j: int| last < j < n ==> !flags@[j],
        decreases last,
    {
        last -= 1;
    }
    proof {
        lemma_last_set(flags@, last as int);
    }
    Some((first as u32, last as u32))
}

/// Which columns of `x0..x1` hold ink in the rows `y0..y1`.
pub open spec fn columns_with_ink(
    g: Gray,
    m: FgModel,
    x0: int,
    x1: int,
    y0: int,
    y1: int,
) -> Seq<bool> {
    Seq::new(
        (if x1 > x0 {
            x1 - x0
        } else {
            0
        }) as nat,
        |i: int| ink_in_rows(g, m, y0, y1 - 1, x0 + i),
    )
}

/// Which rows of `y0..y1` hold ink in the columns `x0..x1`.
pub open spec fn rows_with_ink(
    g: Gray,
    m: FgModel,
    x0: int,
    x1: int,
    y0: int,
    y1: int,
) -> Seq<bool> {
    Seq::new(
        (if y1 > y0 {
            y1 - y0
        } else {
            0
        }) as nat,
        |i: int| ink_in_columns(g, m, x0, x1 - 1, y0 + i),
    )
}

/// Share of an edge of the ink's bounding box that must be ink for the box to
/// count as a drawn rectangle, in thousandths.
pub const TOFU_EDGE_MIN_RATIO: u32 = 750;

/// The strip of `len` pixels is drawn densely enough to be an edge.
pub open spec fn dense_edge(
    g: Gray,
    m: FgModel,
    x0: int,
    x1: int,
    y0: int,
    y1: int,
    len: int,
) -> bool {
    area_count(g, m, x0, x1, y0, y1) * 1000 >= TOFU_EDGE_MIN_RATIO * len
}

/// The ink draws all four edges of the inclusive rectangle.
pub open spec fn is_rectangle(
    g: Gray,
    m: FgModel,
    min_x: int,
    max_x: int,
    min_y: int,
    max_y: int,
) -> bool {
    let w = max_x - min_x + 1;
    let h = max_y - min_y + 1;
    &&& dense_edge(g, m, min_x, max_x + 1, min_y, min_y + 1, w)
    &&& dense_edge(g, m, min_x, max_x + 1, max_y, max_y + 1, w)
    &&& dense_edge(g, m, min_x, min_x + 1, min_y, max_y + 1, h)
    &&& dense_edge(g, m, max_x, max_x + 1, min_y, max_y + 1, h)
}

fn draws_rectangle(
    gray: &GrayImage,
    model: &FgModel,
    min_x: u32,
    max_x: u32,
    min_y: u32,
    max_y: u32,
) -> (drawn: bool)
    requires
        gray.wf(),
        min_x <= max_x < gray.width,
        min_y <= max_y < gray.height,
    ensures
        drawn == is_rectangle(
            gray@,
            *model,
            min_x as int,
            max_x as int,
            min_y as int,
            max_y as int,
        ),
{
    let w = (max_x - min_x) as u128 + 1;
    let h = (max_y - min_y) as u128 + 1;
    let share = TOFU_EDGE_MIN_RATIO as u128;
    let top = count_area(gray, model, min_x, max_x + 1, min_y, min_y + 1) as u128;
    let bottom = count_area(gray, model, min_x, max_x + 1, max_y, max_y + 1) as u128;
    let left = count_area(gray, model, min_x, min_x + 1, min_y, max_y + 1) as u128;
    let right = count_area(gray, model, max_x, max_x + 1, min_y, max_y + 1) as u128;
    top * 1000 >= share * w && bottom * 1000 >= share * w && left * 1000 >= share * h && right
        * 1000 >= share * h
}

/// The missing-glyph box renders as a thin hollow rectangle: the bounding box of
/// the ink spans most of the cell on both axes, has an interior, the interior is
/// mostly empty, and all four edges are drawn. A stroke that leaves an edge open
/// is no box.
pub open spec fn is_tofu(g: Gray, m: FgModel, b: CellBox, t: Thresholds) -> bool {
    let x1 = clip_end(b.right, g.width);
    let y1 = clip_end(b.bottom, g.height);
    let cols = columns_with_ink(g, m, b.left as int, x1, b.top as int, y1);
    let rows = rows_with_ink(g, m, b.left as int, x1, b.top as int, y1);
    let min_x = b.left + first_set(cols);
    let max_x = b.left + last_set(cols);
    let min_y = b.top + first_set(rows);
    let max_y = b.top + last_set(rows);
    let bw = max_x - min_x + 1;
    let bh = max_y - min_y + 1;
    &&& last_set(cols) >= 0
    &&& bw * 1000 >= t.tofu_bbox_min_ratio * (b.right - b.left + 1)
    &&& bh * 1000 >= t.tofu_bbox_min_ratio * (b.bottom - b.top + 1)
    &&& bw > 2
    &&& bh > 2
    &&& area_count(g, m, min_x + 1, max_x, min_y + 1, max_y) * 1000 <= t.tofu_interior_max_ratio * (
    (bw - 2) * (bh - 2))
    &&& is_rectangle(g, m, min_x, max_x, min_y, max_y)
}

fn column_flags(
    gray: &GrayImage,
    model: &FgModel,
    x0: u32,
    x1: u32,
    y0: u32,
    y1: u32,
) -> (f: Vec<bool>)
    requires
        gray.wf(),
        x0 < x1 <= gray.width,
        y0 < y1 <= gray.height,
    ensures
        f@ == columns_with_ink(gray@, *model, x0 as int, x1 as int, y0 as int, y1 as int),
{
    let mut f: Vec<bool> = Vec::new();
    for x in x0..x1
        invariant
            gray.wf(),
            x0 < x1 <= gray.width,
            y0 < y1 <= gray.height,
            f@.len() == x - x0,
            forall|i: int|
                0 <= i < x - x0 ==> f@[i] == ink_in_rows(
                    gray@,
                    *model,
                    y0 as int,
                    y1 - 1,
                    x0 + i,
                ),
    {
        f.push(any_in_rows(gray, model, y0, y1 - 1, x));
    }
    assert(f@ =~= columns_with_ink(gray@, *model, x0 as int, x1 as int, y0 as int, y1 as int));
    f
}

fn row_flags(
    gray: &GrayImage,
    model: &FgModel,
    x0: u32,
    x1: u32,
    y0: u32,
    y1: u32,
) -> (f: Vec<bool>)
    requires
        gray.wf(),
        x0 < x1 <= gray.width,
        y0 < y1 <= gray.height,
    ensures
        f@ == rows_with_ink(gray@, *model, x0 as int, x1 as int, y0 as int, y1 as int),
{
    let mut f: Vec<bool> = Vec::new();
    for y in y0..y1
        invariant
            gray.wf(),
            x0 < x1 <= gray.width,
            y0 < y1 <= gray.height,
            f@.len() == y - y0,
            forall|i: int|
                0 <= i < y - y0 ==> f@[i] == ink_in_columns(
                    gray@,
                    *model,
                    x0 as int,
                    x1 - 1,
                    y0 + i,
                ),
    {
        f.push(any_in_columns(gray, model, x0, x1 - 1, y));
    }
    assert(f@ =~= rows_with_ink(gray@, *model, x0 as int, x1 as int, y0 as int, y1 as int));
    f
}

/// Ink in some column means ink in some row.
proof fn lemma_ink_on_both_axes(
    g: Gray,
    m: FgModel,
    x0: int,
    x1: int,
    y0: int,
    y1: int,
)
    requires
        x0 < x1,
        y0 < y1,
        last_set(columns_with_ink(g, m, x0, x1, y0, y1)) >= 0,
    ensures
        last_set(rows_with_ink(g, m, x0, x1, y0, y1)) >= 0,
{
    let cols = columns_with_ink(g, m, x0, x1, y0, y1);
    let rows = rows_with_ink(g, m, x0, x1, y0, y1);
    lemma_last_set_is_set(cols);
    let x = x0 + last_set(cols);
    let y = choose|y: int| y0 <= y <= y1 - 1 && fg(g, m, x, y);
    assert(ink_in_columns(g, m, x0, x1 - 1, y));
    assert(rows[y - y0]);
    lemma_last_set_is_set(rows);
}

proof fn lemma_last_set_is_set(f: Seq<bool>)
    ensures
        last_set(f) < f.len(),
        last_set(f) >= 0 ==> f[last_set(f)],
        last_set(f) < 0 ==> forall|j: int| 0 <= j < f.len() ==> !f[j],
    decreases f.len(),
{
    if f.len() > 0 && !f.last() {
        lemma_last_set_is_set(f.drop_last());
        if last_set(f) < 0 {
            assert forall|j: int| 0 <= j < f.len() implies !f[j] by {
                if j < f.len() - 1 {
                    assert(!f.drop_last()[j]);
                }
            }
        }
    }
}

fn looks_like_tofu(gray: &GrayImage, model: &FgModel, icon_box: &CellBox, t: &Thresholds) -> (tofu:
    bool)
    requires
        gray.wf(),
    ensures
        tofu == is_tofu(gray@, *model, *icon_box, *t),
{
    let x0 = icon_box.left;
    let y0 = icon_box.top;
    let x1 = clip(icon_box.right, gray.width);
    let y1 = clip(icon_box.bottom, gray.height);
    let ghost cols = columns_with_ink(gray@, *model, x0 as int, x1 as int, y0 as int, y1 as int);
    let ghost rows = rows_with_ink(gray@, *model, x0 as int, x1 as int, y0 as int, y1 as int);
    if x0 >= x1 || y0 >= y1 {
        proof {
            lemma_last_set_is_set(cols);
        }
        return false;
    }
    let cf = column_flags(gray, model, x0, x1, y0, y1);
    let (cx0, cx1) = match set_range(cf.as_slice()) {
        Some(r) => r,
        None => {
            return false;
        },
    };
    let rf = row_flags(gray, model, x0, x1, y0, y1);
    proof {
        lemma_ink_on_both_axes(gray@, *model, x0 as int, x1 as int, y0 as int, y1 as int);
    }
    let (ry0, ry1) = match set_range(rf.as_slice()) {
        Some(r) => r,
        None => {
            return false;
        },
    };
    let bw = (cx1 - cx0) as u64 + 1;
    let bh = (ry1 - ry0) as u64 + 1;
    let cell_w = (icon_box.right - icon_box.left) as u128 + 1;
    let cell_h = (icon_box.bottom - icon_box.top) as u128 + 1;
    let min_ratio = t.tofu_bbox_min_ratio as u128;
    proof {
        lemma_product_fits(min_ratio as int, cell_w as int);
        lemma_product_fits(min_ratio as int, cell_h as int);
    }
    // The outline should span most of the cell.
    if (bw as u128) * 1000 < min_ratio * cell_w || (bh as u128) * 1000 < min_ratio * cell_h {
        return false;
    }
    if bw <= 2 || bh <= 2 {
        return false;
    }
    // Its interior is mostly empty.
    let ink = count_area(gray, model, x0 + cx0 + 1, x0 + cx1, y0 + ry0 + 1, y0 + ry1);
    proof {
        lemma_product_fits(bw - 2, bh - 2);
        lemma_product_fits(t.tofu_interior_max_ratio as int, (bw - 2) * (bh - 2));
    }
    let interior = (bw as u128 - 2) * (bh as u128 - 2);
    if (ink as u128) * 1000 > t.tofu_interior_max_ratio as u128 * interior {
        return false;
    }
    // Its perimeter is dense on every side.
    draws_rectangle(gray, model, x0 + cx0, x0 + cx1, y0 + ry0, y0 + ry1)
}

proof fn lemma_product_fits(a: int, b: int)
    requires
        0 <= a <= 0xffff_ffff,
        0 <= b <= 0xffff_ffff * 0xffff_ffff,
    ensures
        0 <= a * b <= 0xffff_ffff * 0xffff_ffff * 0xffff_ffff,
        b <= 0x1_0000_0000 ==> a * b <= 0x1_0000_0000 * 0xffff_ffff,
        b <= 0xffff_ffff ==> a * b <= 0xffff_ffff * 0xffff_ffff,
{
    assert(0 <= a * b <= 0xffff_ffff * (0xffff_ffff * 0xffff_ffff)) by (nonlinear_arith)
        requires
            0 <= a <= 0xffff_ffff,
            0 <= b <= 0xffff_ffff * 0xffff_ffff,
    ;
    if b <= 0x1_0000_0000 {
        assert(a * b <= 0xffff_ffff * 0x1_0000_0000) by (nonlinear_arith)
            requires
                0 <= a <= 0xffff_ffff,
                0 <= b <= 0x1_0000_0000,
        ;
    }
    if b <= 0xffff_ffff {
        assert(a * b <= 0xffff_ffff * 0xffff_ffff) by (nonlinear_arith)
            requires
                0 <= a <= 0xffff_ffff,
                0 <= b <= 0xffff_ffff,
        ;
    }
}

// ---------------------------------------------------------------------------
// Visibility
// ---------------------------------------------------------------------------
/// The ink share that a cell of the block must reach, in thousandths.
pub open spec fn eps_of(block: Block, t: Thresholds) -> u32 {
    if block == Block::Braille {
        t.eps_braille
    } else {
        t.eps_default
    }
}

/// Visibility of one icon cell: the ink share reaches the block's threshold,
/// and outside Braille the ink is no missing-glyph outline.
pub open spec fn visibility(
    g: Gray,
    m: FgModel,
    b: CellBox,
    block: Block,
    t: Thresholds,
) -> Result<(), InvisibleReason> {
    if ink_count(g, m, b) * 1000 < eps_of(block, t) * (extent(b.left as int, b.right as int)
        * extent(b.top as int, b.bottom as int)) {
        Err(InvisibleReason::Blank)
    } else if block != Block::Braille && is_tofu(g, m, b, t) {
        Err(InvisibleReason::TofuBox)
    } else {
        Ok(())
    }
}

/// Visibility check for one icon cell.
pub fn check_visibility(
    gray: &GrayImage,
    model: &FgModel,
    icon_box: &CellBox,
    block: Block,
    t: &Thresholds,
) -> (out: Result<(), InvisibleReason>)
    requires
        gray.wf(),
        icon_box.right - icon_box.left < u32::MAX,
        icon_box.bottom - icon_box.top < u32::MAX,
    ensures
        out == visibility(gray@, *model, *icon_box, block, *t),
        icon_box.left <= icon_box.right && icon_box.top <= icon_box.bottom ==> tells_visibility(
            out,
            gray@,
            *model,
            *icon_box,
            block,
            *t,
        ),
{
    proof {
        if icon_box.left <= icon_box.right && icon_box.top <= icon_box.bottom {
            visibility_means_enough_ink_and_no_closed_box(
                gray@,
                *model,
                *icon_box,
                block,
                *t,
            );
        }
    }
    let area = icon_box.area();
    let braille = block == Block::Braille;
    let eps = if braille {
        t.eps_braille
    } else {
        t.eps_default
    };
    let ink = fg_count(gray, model, icon_box);
    proof {
        let w = extent(icon_box.left as int, icon_box.right as int);
        let h = extent(icon_box.top as int, icon_box.bottom as int);
        lemma_product_fits(w, h);
        lemma_product_fits(eps as int, area as int);
    }
    if (ink as u128) * 1000 < eps as u128 * area as u128 {
        return Err(InvisibleReason::Blank);
    }
    // A lone Braille dot is inherently hollow and tiny, so it must never be
    // evaluated as an outline.
    if !braille && looks_like_tofu(gray, model, icon_box, t) {
        return Err(InvisibleReason::TofuBox);
    }
    Ok(())
}

// ---------------------------------------------------------------------------
// Bleed
// ---------------------------------------------------------------------------
/// Ink flags of row `y` in the columns `x0..x1`.
pub open spec fn row_mask(g: Gray, m: FgModel, x0: int, x1: int, y: int) -> Seq<bool> {
    Seq::new(
        (if x1 > x0 {
            x1 - x0
        } else {
            0
        }) as nat,
        |i: int| fg(g, m, x0 + i, y),
    )
}

/// Ink flags of the rows `y0..y1`, one row after the other.
pub open spec fn area_mask(
    g: Gray,
    m: FgModel,
    x0: int,
    x1: int,
    y0: int,
    y1: int,
) -> Seq<bool>
    decreases y1 - y0,
{
    if y1 <= y0 {
        seq![]
    } else {
        area_mask(g, m, x0, x1, y0, y1 - 1) + row_mask(g, m, x0, x1, y1 - 1)
    }
}

/// Row-major ink mask of the part of the box that lies inside the image.
pub open spec fn box_mask(g: Gray, m: FgModel, b: CellBox) -> Seq<bool> {
    area_mask(
        g,
        m,
        b.left as int,
        clip_end(b.right, g.width),
        b.top as int,
        clip_end(b.bottom, g.height),
    )
}

/// Boolean ink mask of a cell box, row-major.
pub fn crop_mask(gray: &GrayImage, model: &FgModel, b: &CellBox) -> (out: Vec<bool>)
    requires
        gray.wf(),
    ensures
        out@ == box_mask(gray@, *model, *b),
{
    let x0 = b.left;
    let y0 = b.top;
    let x1 = clip(b.right, gray.width);
    let y1 = clip(b.bottom, gray.height);
    let mut out: Vec<bool> = Vec::new();
    let mut y = y0;
    while y < y1
        invariant
            gray.wf(),
            x1 <= gray.width,
            y1 <= gray.height,
            y0 <= y,
            y <= y1 || y == y0,
            out@ == area_mask(gray@, *model, x0 as int, x1 as int, y0 as int, y as int),
        decreases y1 - y,
    {
        let ghost before = out@;
        let mut x = x0;
        while x < x1
            invariant
                gray.wf(),
                x1 <= gray.width,
                y < y1 <= gray.height,
                x0 <= x,
                x <= x1 || x == x0,
                out@ == before + row_mask(gray@, *model, x0 as int, x as int, y as int),
            decreases x1 - x,
        {
            out.push(model.is_fg(gray, x, y));
            x += 1;
            assert(out@ =~= before + row_mask(gray@, *model, x0 as int, x as int, y as int));
        }
        assert(row_mask(gray@, *model, x0 as int, x as int, y as int) =~= row_mask(
            gray@,
            *model,
            x0 as int,
            x1 as int,
            y as int,
        ));
        y += 1;
    }
    assert(area_mask(gray@, *model, x0 as int, x1 as int, y0 as int, y as int) =~= area_mask(
        gray@,
        *model,
        x0 as int,
        x1 as int,
        y0 as int,
        y1 as int,
    ));
    out
}

/// Positions at which two masks differ, over their common length.
pub open spec fn differences(a: Seq<bool>, b: Seq<bool>, n: nat) -> nat
    decreases n,
{
    if n == 0 {
        0
    } else {
        differences(a, b, (n - 1) as nat) + (if a[n - 1] != b[n - 1] {
            1nat
        } else {
            0
        })
    }
}

/// The shorter of two lengths.
pub open spec fn common_len(a: Seq<bool>, b: Seq<bool>) -> nat {
    if a.len() <= b.len() {
        a.len()
    } else {
        b.len()
    }
}

/// Ink between the icon cell's right boundary and sentinel B's crop. The first
/// column past the icon's full cell counts; B's crop-left column does not, being
/// a shared edge with legitimate glyph and antialiasing ink.
pub open spec fn right_gutter_ink(g: Gray, m: FgModel, cal: Calibration, band: Band) -> bool {
    exists|x: int, y: int|
        cal.pixel(3, 10) <= x < cal.pixel(4, -7) && x < g.width - 1 && band.top <= y <= band.bottom
            && y < g.height && #[trigger] fg(g, m, x, y)
}

/// Ink strictly between sentinel A's crop and the icon cell's left boundary. A's
/// crop-right column does not count, being a shared edge with legitimate glyph
/// and antialiasing ink.
pub open spec fn left_gutter_ink(g: Gray, m: FgModel, cal: Calibration, band: Band) -> bool {
    exists|x: int, y: int|
        cal.pixel(2, 7) < x < cal.pixel(3, -10) && x < g.width && band.top <= y <= band.bottom && y
            < g.height && #[trigger] fg(g, m, x, y)
}

/// Ink past either boundary of the icon's cell.
pub open spec fn gutter_ink(g: Gray, m: FgModel, cal: Calibration, band: Band) -> bool {
    right_gutter_ink(g, m, cal, band) || left_gutter_ink(g, m, cal, band)
}

/// The B crop differs from the reference by more than the tolerance.
pub open spec fn b_differs(mask: Seq<bool>, reference: Seq<bool>, t: Thresholds) -> bool {
    differences(mask, reference, common_len(mask, reference)) * 1000 > t.bleed_max * (
    if reference.len() > 1 {
        reference.len()
    } else {
        1
    })
}

/// Outcome of the bleed check.
pub open spec fn bleed(
    g: Gray,
    m: FgModel,
    cal: Calibration,
    band: Band,
    reference_b: Seq<bool>,
    t: Thresholds,
) -> BleedVerdict {
    if gutter_ink(g, m, cal, band) || b_differs(
        box_mask(g, m, cal.crop(4, band)),
        reference_b,
        t,
    ) {
        BleedVerdict::Intrusion
    } else {
        BleedVerdict::Clean
    }
}

fn strip_has_ink(gray: &GrayImage, model: &FgModel, x0: u32, x1: u32, band: &Band) -> (found: bool)
    requires
        gray.wf(),
        x1 <= gray.width,
    ensures
        found == exists|x: int, y: int|
            x0 <= x < x1 && band.top <= y <= band.bottom && y < gray.height && #[trigger] fg(
                gray@,
                *model,
                x,
                y,
            ),
{
    let y1 = clip(band.bottom, gray.height);
    let mut y = band.top;
    while y < y1
        invariant
            gray.wf(),
            x1 <= gray.width,
            y1 <= gray.height,
            y1 == clip_end(band.bottom, gray.height),
            band.top <= y,
            y <= y1 || y == band.top,
            forall|a: int, b: int|
                x0 <= a < x1 && band.top <= b < y ==> !#[trigger] fg(gray@, *model, a, b),
        decreases y1 - y,
    {
        if x0 < x1 {
            for x in x0..x1
                invariant
                    gray.wf(),
                    x1 <= gray.width,
                    y < y1 <= gray.height,
                    y1 == clip_end(band.bottom, gray.height),
                    band.top <= y,
                    forall|a: int| x0 <= a < x ==> !#[trigger] fg(gray@, *model, a, y as int),
            {
                if model.is_fg(gray, x, y) {
                    assert(fg(gray@, *model, x as int, y as int));
                    return true;
                }
            }
        }
        y += 1;
    }
    false
}

fn gutter_has_ink(gray: &GrayImage, model: &FgModel, cal: &Calibration, band: &Band) -> (found: bool)
    requires
        gray.wf(),
        cal.wf(),
    ensures
        found == gutter_ink(gray@, *model, *cal, *band),
{
    if gray.width == 0 {
        return false;
    }
    let (r0, r1) = cal.gutter_span();
    let from = round_px(r0, 20 * cal.unit);
    let b_left = round_px(r1, 20 * cal.unit);
    let to = if b_left < gray.width - 1 {
        b_left
    } else {
        gray.width - 1
    };
    let (l0, l1) = cal.left_gutter_span();
    let a_right = round_px(l0, 20 * cal.unit);
    let cell_left = round_px(l1, 20 * cal.unit);
    let before = if cell_left < gray.width {
        cell_left
    } else {
        gray.width
    };
    if strip_has_ink(gray, model, from, to, band) {
        return true;
    }
    a_right < before && strip_has_ink(gray, model, a_right + 1, before, band)
}

fn count_differences(a: &[bool], b: &[bool]) -> (n: usize)
    ensures
        n == differences(a@, b@, common_len(a@, b@)),
        n == Set::new(|i: int| 0 <= i < a@.len() && i < b@.len() && a@[i] != b@[i]).len(),
{
    let len = if a.len() <= b.len() {
        a.len()
    } else {
        b.len()
    };
    let mut n: usize = 0;
    for i in 0..len
        invariant
            len == common_len(a@, b@),
            n == differences(a@, b@, i as nat),
            n <= i,
    {
        if a[i] != b[i] {
            n += 1;
        }
    }
    proof {
        differences_are_disagreements(a@, b@, common_len(a@, b@));
        assert(Set::new(|i: int| 0 <= i < common_len(a@, b@) && a@[i] != b@[i]) =~= Set::new(
            |i: int| 0 <= i < a@.len() && i < b@.len() && a@[i] != b@[i],
        ));
    }
    n
}

/// Compare the candidate's B-cell crop against the control-row reference crop
/// and scan the gutters between the icon and its sentinels for intrusion.
/// Overflow toward A violates the spatial contract just as overflow toward B.
///
/// `reference_b` is harvested once per page from the control band; solid glyphs
/// that legitimately fill their own cell never enter B's central crop, while a
/// wide (2-cell) render physically does.
pub fn check_bleed(
    gray: &GrayImage,
    model: &FgModel,
    cal: &Calibration,
    band: &Band,
    reference_b: &[bool],
    t: &Thresholds,
) -> (out: BleedVerdict)
    requires
        gray.wf(),
        cal.wf(),
    ensures
        out == bleed(gray@, *model, *cal, *band, reference_b@, *t),
{
    let b_box = cal.cell_box(4, band);
    if gutter_has_ink(gray, model, cal, band) {
        return BleedVerdict::Intrusion;
    }
    let mask = crop_mask(gray, model, &b_box);
    let diff = count_differences(mask.as_slice(), reference_b);
    let denom = if reference_b.len() > 1 {
        reference_b.len()
    } else {
        1
    };
    assert(t.bleed_max * denom <= 0xffff_ffff * 0xffff_ffff_ffff_ffff) by (nonlinear_arith)
        requires
            t.bleed_max <= 0xffff_ffff,
            denom <= 0xffff_ffff_ffff_ffff,
    ;
    if (diff as u128) * 1000 > t.bleed_max as u128 * denom as u128 {
        return BleedVerdict::Intrusion;
    }
    BleedVerdict::Clean
}

// ---------------------------------------------------------------------------
// Laws
// ---------------------------------------------------------------------------
/// A cell without ink is blank in every block whose threshold is above zero.
pub proof fn inkless_cell_is_blank(
    g: Gray,
    m: FgModel,
    b: CellBox,
    block: Block,
    t: Thresholds,
)
    requires
        eps_of(block, t) > 0,
        forall|x: int, y: int|
            b.left <= x <= b.right && b.top <= y <= b.bottom ==> !#[trigger] fg(g, m, x, y),
    ensures
        visibility(g, m, b, block, t) == Err::<(), InvisibleReason>(InvisibleReason::Blank),
{
    let x1 = clip_end(b.right, g.width);
    let y1 = clip_end(b.bottom, g.height);
    lemma_no_ink(g, m, b.left as int, x1, b.top as int, y1);
    let w = extent(b.left as int, b.right as int);
    let h = extent(b.top as int, b.bottom as int);
    let e = eps_of(block, t);
    assert(e * (w * h) > 0) by (nonlinear_arith)
        requires
            e > 0,
            w > 0,
            h > 0,
    ;
}

proof fn lemma_no_ink(g: Gray, m: FgModel, x0: int, x1: int, y0: int, y1: int)
    requires
        forall|x: int, y: int| x0 <= x < x1 && y0 <= y < y1 ==> !#[trigger] fg(g, m, x, y),
    ensures
        area_count(g, m, x0, x1, y0, y1) == 0,
    decreases y1 - y0,
{
    if y0 < y1 {
        lemma_no_ink(g, m, x0, x1, y0, y1 - 1);
        lemma_no_ink_row(g, m, x0, x1, y1 - 1);
    }
}

proof fn lemma_no_ink_row(g: Gray, m: FgModel, x0: int, x1: int, y: int)
    requires
        forall|x: int| x0 <= x < x1 ==> !#[trigger] fg(g, m, x, y),
    ensures
        row_count(g, m, x0, x1, y) == 0,
    decreases x1 - x0,
{
    if x0 < x1 {
        lemma_no_ink_row(g, m, x0, x1 - 1, y);
    }
}

/// A B crop identical to the reference is never an intrusion.
pub proof fn identical_crop_never_differs(mask: Seq<bool>, t: Thresholds)
    ensures
        !b_differs(mask, mask, t),
{
    lemma_no_differences(mask, mask.len());
    let d = if mask.len() > 1 {
        mask.len()
    } else {
        1
    };
    assert(t.bleed_max * d >= 0) by (nonlinear_arith)
        requires
            d >= 0,
    ;
}

proof fn lemma_no_differences(mask: Seq<bool>, n: nat)
    ensures
        differences(mask, mask, n) == 0,
    decreases n,
{
    if n > 0 {
        lemma_no_differences(mask, (n - 1) as nat);
    }
}

/// The icon's own cell is legitimate ink territory: two captures that differ
/// only inside the columns of the icon's full cell get the same bleed verdict.
pub proof fn ink_in_own_cell_never_bleeds(
    g: Gray,
    h: Gray,
    m: FgModel,
    cal: Calibration,
    band: Band,
    reference_b: Seq<bool>,
    t: Thresholds,
)
    requires
        cal.wf(),
        cal.pixel(3, 10) >= 1,
        g.width == h.width,
        g.height == h.height,
        forall|x: int, y: int|
            x < cal.cell(3, band).left || cal.cell(3, band).right < x ==> #[trigger] fg(g, m, x, y)
                == fg(h, m, x, y),
    ensures
        bleed(g, m, cal, band, reference_b, t) == bleed(h, m, cal, band, reference_b, t),
{
    let right = cal.cell(3, band).right as int;
    lemma_nearest_monotone(cal.place(3, 10), cal.place(4, -7), 20 * cal.unit as int);
    let b = cal.crop(4, band);
    lemma_same_mask(
        g,
        h,
        m,
        b.left as int,
        clip_end(b.right, g.width),
        b.top as int,
        clip_end(b.bottom, g.height),
    );
    lemma_same_gutters(g, h, m, cal, band);
    lemma_same_gutters(h, g, m, cal, band);
}

proof fn lemma_same_gutters(g: Gray, h: Gray, m: FgModel, cal: Calibration, band: Band)
    requires
        cal.pixel(3, 10) >= 1,
        g.width == h.width,
        g.height == h.height,
        forall|x: int, y: int|
            x < cal.cell(3, band).left || cal.cell(3, band).right < x ==> #[trigger] fg(g, m, x, y)
                == fg(h, m, x, y),
    ensures
        gutter_ink(g, m, cal, band) ==> gutter_ink(h, m, cal, band),
{
    if right_gutter_ink(g, m, cal, band) {
        let (x, y) = choose|x: int, y: int|
            cal.pixel(3, 10) <= x < cal.pixel(4, -7) && x < g.width - 1 && band.top <= y
                <= band.bottom && y < g.height && #[trigger] fg(g, m, x, y);
        assert(fg(h, m, x, y));
    }
    if left_gutter_ink(g, m, cal, band) {
        let (x, y) = choose|x: int, y: int|
            cal.pixel(2, 7) < x < cal.pixel(3, -10) && x < g.width && band.top <= y <= band.bottom
                && y < g.height && #[trigger] fg(g, m, x, y);
        assert(fg(h, m, x, y));
    }
}

proof fn lemma_same_mask(
    g: Gray,
    h: Gray,
    m: FgModel,
    x0: int,
    x1: int,
    y0: int,
    y1: int,
)
    requires
        forall|x: int, y: int| x0 <= x ==> #[trigger] fg(g, m, x, y) == fg(h, m, x, y),
    ensures
        area_mask(g, m, x0, x1, y0, y1) == area_mask(h, m, x0, x1, y0, y1),
    decreases y1 - y0,
{
    if y0 < y1 {
        lemma_same_mask(g, h, m, x0, x1, y0, y1 - 1);
        assert(row_mask(g, m, x0, x1, y1 - 1) =~= row_mask(h, m, x0, x1, y1 - 1));
    }
}

/// Ink past the icon's cell is an intrusion, toward either sentinel.
pub proof fn overflow_is_an_intrusion(
    g: Gray,
    m: FgModel,
    cal: Calibration,
    band: Band,
    reference_b: Seq<bool>,
    t: Thresholds,
    x: int,
    y: int,
)
    requires
        band.top <= y <= band.bottom,
        y < g.height,
        x < g.width - 1,
        cal.pixel(2, 7) < x < cal.pixel(3, -10) || cal.pixel(3, 10) <= x < cal.pixel(4, -7),
        fg(g, m, x, y),
    ensures
        bleed(g, m, cal, band, reference_b, t) == BleedVerdict::Intrusion,
{
}

/// A stroke that leaves an edge of its bounding box open is no missing-glyph
/// box, and ink that covers the interior is none either.
pub proof fn open_outlines_are_no_tofu(g: Gray, m: FgModel, b: CellBox, t: Thresholds)
    ensures
        is_tofu(g, m, b, t) ==> {
            let x1 = clip_end(b.right, g.width);
            let y1 = clip_end(b.bottom, g.height);
            let cols = columns_with_ink(g, m, b.left as int, x1, b.top as int, y1);
            let rows = rows_with_ink(g, m, b.left as int, x1, b.top as int, y1);
            is_rectangle(
                g,
                m,
                b.left + first_set(cols),
                b.left + last_set(cols),
                b.top + first_set(rows),
                b.top + last_set(rows),
            )
        },
{
}

/// The ink of a cell never exceeds its area, so an ink share is at most one.
pub proof fn ink_never_exceeds_area(g: Gray, m: FgModel, b: CellBox)
    ensures
        ink_count(g, m, b) <= extent(b.left as int, b.right as int) * extent(
            b.top as int,
            b.bottom as int,
        ),
{
    let x1 = clip_end(b.right, g.width);
    let y1 = clip_end(b.bottom, g.height);
    let w = extent(b.left as int, b.right as int);
    let h = extent(b.top as int, b.bottom as int);
    lemma_area_bound(g, m, b.left as int, x1, b.top as int, y1, w);
    let rows = if y1 > b.top {
        y1 - b.top
    } else {
        0
    };
    assert(w * rows <= w * h) by (nonlinear_arith)
        requires
            0 <= w,
            rows <= h,
    ;
}

proof fn lemma_area_bound(
    g: Gray,
    m: FgModel,
    x0: int,
    x1: int,
    y0: int,
    y1: int,
    w: int,
)
    requires
        x1 - x0 <= w,
        0 <= w,
    ensures
        area_count(g, m, x0, x1, y0, y1) <= w * (if y1 > y0 {
            y1 - y0
        } else {
            0
        }),
    decreases y1 - y0,
{
    if y0 < y1 {
        lemma_area_bound(g, m, x0, x1, y0, y1 - 1, w);
        if x0 <= x1 {
            lemma_row_count_bound(g, m, x0, x1, y1 - 1);
        }
        assert(w * (y1 - y0) == w * (y1 - 1 - y0) + w) by (nonlinear_arith);
    } else {
        assert(w * 0 == 0) by (nonlinear_arith);
    }
}

// ---------------------------------------------------------------------------
// What the checks decide
// ---------------------------------------------------------------------------
/// The ink of a rectangle: the pixels in the columns `x0..x1` and the rows
/// `y0..y1` whose luminance is further from the background than the delta.
pub open spec fn ink_pixels(
    g: Gray,
    m: FgModel,
    x0: int,
    x1: int,
    y0: int,
    y1: int,
) -> Set<(int, int)> {
    Set::new(
        |p: (int, int)|
            {
                let v = g.data[p.1 * g.width + p.0];
                x0 <= p.0 < x1 && y0 <= p.1 < y1 && (v > m.bg + m.delta || m.bg > v + m.delta)
            },
    )
}

/// The ink lies between the given columns and rows and reaches all four of them.
pub open spec fn bounded_by(
    ink: Set<(int, int)>,
    left: int,
    right: int,
    top: int,
    bottom: int,
) -> bool {
    &&& forall|p: (int, int)| #[trigger]
        ink.contains(p) ==> left <= p.0 <= right && top <= p.1 <= bottom
    &&& exists|p: (int, int)| #[trigger] ink.contains(p) && p.0 == left
    &&& exists|p: (int, int)| #[trigger] ink.contains(p) && p.0 == right
    &&& exists|p: (int, int)| #[trigger] ink.contains(p) && p.1 == top
    &&& exists|p: (int, int)| #[trigger] ink.contains(p) && p.1 == bottom
}

proof fn lemma_ink_pixel(g: Gray, m: FgModel, x0: int, x1: int, y0: int, y1: int, x: int, y: int)
    ensures
        ink_pixels(g, m, x0, x1, y0, y1).contains((x, y)) <==> x0 <= x < x1 && y0 <= y < y1 && fg(
            g,
            m,
            x,
            y,
        ),
{
    assert(g.at(x, y) == g.data[y * g.width + x]);
}

/// The counts of ink are the sizes of the sets of ink pixels.
proof fn lemma_area_is_ink(g: Gray, m: FgModel, x0: int, x1: int, y0: int, y1: int)
    ensures
        ink_pixels(g, m, x0, x1, y0, y1).finite(),
        ink_pixels(g, m, x0, x1, y0, y1).len() == area_count(g, m, x0, x1, y0, y1),
    decreases y1 - y0,
{
    let s = ink_pixels(g, m, x0, x1, y0, y1);
    if y1 <= y0 {
        assert(s =~= Set::empty());
    } else {
        lemma_area_is_ink(g, m, x0, x1, y0, y1 - 1);
        lemma_partial_row(g, m, x0, x1, y0, y1 - 1, x1);
        assert(partial_rows(g, m, x0, x1, y0, y1 - 1, x1) =~= s) by {
            assert forall|p: (int, int)|
                partial_rows(g, m, x0, x1, y0, y1 - 1, x1).contains(p) == s.contains(p) by {
                lemma_ink_pixel(g, m, x0, x1, y0, y1, p.0, p.1);
            }
        }
    }
}

/// The ink of the rows `y0..y` and of the first columns of row `y`, up to `x`.
spec fn partial_rows(
    g: Gray,
    m: FgModel,
    x0: int,
    x1: int,
    y0: int,
    y: int,
    x: int,
) -> Set<(int, int)> {
    Set::new(
        |p: (int, int)|
            x0 <= p.0 < x1 && y0 <= p.1 <= y && (p.1 == y ==> p.0 < x) && fg(g, m, p.0, p.1),
    )
}

proof fn lemma_partial_row(g: Gray, m: FgModel, x0: int, x1: int, y0: int, y: int, x: int)
    requires
        y0 <= y,
        x <= x1,
        ink_pixels(g, m, x0, x1, y0, y).finite(),
        ink_pixels(g, m, x0, x1, y0, y).len() == area_count(g, m, x0, x1, y0, y),
    ensures
        partial_rows(g, m, x0, x1, y0, y, x).finite(),
        partial_rows(g, m, x0, x1, y0, y, x).len() == area_count(g, m, x0, x1, y0, y) + row_count(
            g,
            m,
            x0,
            x,
            y,
        ),
    decreases x - x0,
{
    let s = partial_rows(g, m, x0, x1, y0, y, x);
    if x <= x0 {
        assert forall|p: (int, int)| s.contains(p) == ink_pixels(g, m, x0, x1, y0, y).contains(
            p,
        ) by {
            lemma_ink_pixel(g, m, x0, x1, y0, y, p.0, p.1);
        }
        assert(s =~= ink_pixels(g, m, x0, x1, y0, y));
    } else {
        lemma_partial_row(g, m, x0, x1, y0, y, x - 1);
        let r = partial_rows(g, m, x0, x1, y0, y, x - 1);
        if fg(g, m, x - 1, y) {
            assert(s =~= r.insert((x - 1, y)));
        } else {
            assert(s =~= r);
        }
    }
}

proof fn lemma_first_set_is_set(f: Seq<bool>)
    ensures
        0 <= first_set(f) <= f.len(),
        first_set(f) < f.len() ==> f[first_set(f)],
        forall|j: int| 0 <= j < first_set(f) ==> !f[j],
    decreases f.len(),
{
    if f.len() > 0 && !f[0] {
        lemma_first_set_is_set(f.skip(1));
        assert forall|j: int| 0 <= j < first_set(f) implies !f[j] by {
            if j > 0 {
                assert(!f.skip(1)[j - 1]);
            }
        }
    }
}

proof fn lemma_last_set_is_last(f: Seq<bool>)
    ensures
        -1 <= last_set(f) < f.len(),
        last_set(f) >= 0 ==> f[last_set(f)],
        forall|j: int| last_set(f) < j < f.len() ==> !f[j],
    decreases f.len(),
{
    if f.len() > 0 && !f.last() {
        lemma_last_set_is_last(f.drop_last());
        assert forall|j: int| last_set(f) < j < f.len() implies !f[j] by {
            if j < f.len() - 1 {
                assert(!f.drop_last()[j]);
            }
        }
    }
}

/// Ink has one bounding box.
proof fn lemma_one_bounding_box(
    ink: Set<(int, int)>,
    l: int,
    r: int,
    t: int,
    b: int,
    l2: int,
    r2: int,
    t2: int,
    b2: int,
)
    requires
        bounded_by(ink, l, r, t, b),
        bounded_by(ink, l2, r2, t2, b2),
    ensures
        l == l2,
        r == r2,
        t == t2,
        b == b2,
{
}

/// The bounding box of a rectangle's ink, found along its columns and rows.
proof fn lemma_bounding_box(g: Gray, m: FgModel, x0: int, x1: int, y0: int, y1: int)
    requires
        last_set(columns_with_ink(g, m, x0, x1, y0, y1)) >= 0,
    ensures
        bounded_by(
            ink_pixels(g, m, x0, x1, y0, y1),
            x0 + first_set(columns_with_ink(g, m, x0, x1, y0, y1)),
            x0 + last_set(columns_with_ink(g, m, x0, x1, y0, y1)),
            y0 + first_set(rows_with_ink(g, m, x0, x1, y0, y1)),
            y0 + last_set(rows_with_ink(g, m, x0, x1, y0, y1)),
        ),
{
    let ink = ink_pixels(g, m, x0, x1, y0, y1);
    let cols = columns_with_ink(g, m, x0, x1, y0, y1);
    let rows = rows_with_ink(g, m, x0, x1, y0, y1);
    lemma_first_set_is_set(cols);
    lemma_last_set_is_last(cols);
    let a = last_set(cols);
    assert(cols[a]);
    let xa = x0 + a;
    let ya = choose|y: int| y0 <= y <= y1 - 1 && fg(g, m, xa, y);
    lemma_ink_pixel(g, m, x0, x1, y0, y1, xa, ya);
    let c = first_set(cols);
    assert(c <= a);
    assert(cols[c]);
    let xc = x0 + c;
    let yc = choose|y: int| y0 <= y <= y1 - 1 && fg(g, m, xc, y);
    lemma_ink_pixel(g, m, x0, x1, y0, y1, xc, yc);
    lemma_ink_on_both_axes(g, m, x0, x1, y0, y1);
    lemma_first_set_is_set(rows);
    lemma_last_set_is_last(rows);
    let d = last_set(rows);
    assert(rows[d]);
    let yd = y0 + d;
    let xd = choose|x: int| x0 <= x <= x1 - 1 && fg(g, m, x, yd);
    lemma_ink_pixel(g, m, x0, x1, y0, y1, xd, yd);
    let e = first_set(rows);
    assert(rows[e]);
    let ye = y0 + e;
    let xe = choose|x: int| x0 <= x <= x1 - 1 && fg(g, m, x, ye);
    lemma_ink_pixel(g, m, x0, x1, y0, y1, xe, ye);
    assert(ink.contains((xa, ya)) && ink.contains((xc, yc)));
    assert(ink.contains((xd, yd)) && ink.contains((xe, ye)));
    assert forall|p: (int, int)| #[trigger] ink.contains(p) implies x0 + c <= p.0 <= x0 + a && y0
        + e <= p.1 <= y0 + d by {
        lemma_ink_pixel(g, m, x0, x1, y0, y1, p.0, p.1);
        assert(fg(g, m, p.0, p.1));
        assert(cols[p.0 - x0]);
        assert(rows[p.1 - y0]);
    }
}

/// Without ink there is no bounding box.
proof fn lemma_no_bounding_box(g: Gray, m: FgModel, x0: int, x1: int, y0: int, y1: int)
    requires
        last_set(columns_with_ink(g, m, x0, x1, y0, y1)) < 0,
    ensures
        forall|p: (int, int)| !#[trigger] ink_pixels(g, m, x0, x1, y0, y1).contains(p),
{
    let cols = columns_with_ink(g, m, x0, x1, y0, y1);
    lemma_last_set_is_last(cols);
    assert forall|p: (int, int)| !#[trigger] ink_pixels(g, m, x0, x1, y0, y1).contains(p) by {
        lemma_ink_pixel(g, m, x0, x1, y0, y1, p.0, p.1);
        if ink_pixels(g, m, x0, x1, y0, y1).contains(p) {
            assert(fg(g, m, p.0, p.1));
            assert(cols[p.0 - x0]);
        }
    }
}

/// The ink of a cell, as far as it lies inside the image.
pub open spec fn cell_ink(g: Gray, m: FgModel, b: CellBox) -> Set<(int, int)> {
    ink_pixels(g, m, 0, g.width as int, 0, g.height as int).filter(
        |p: (int, int)| b.left <= p.0 <= b.right && b.top <= p.1 <= b.bottom,
    )
}

/// The ink draws a closed hollow rectangle in a cell of `w` by `h` pixels: its
/// bounding box spans the required share on both axes, each of the four edges is
/// inked along three quarters or more, and the inside is no fuller than allowed.
pub open spec fn closed_box(
    g: Gray,
    m: FgModel,
    ink: Set<(int, int)>,
    w: int,
    h: int,
    t: Thresholds,
) -> bool {
    exists|l: int, r: int, u: int, d: int|
        #![trigger bounded_by(ink, l, r, u, d)]
        {
            &&& bounded_by(ink, l, r, u, d)
            &&& (r - l + 1) * 1000 >= t.tofu_bbox_min_ratio * w
            &&& (d - u + 1) * 1000 >= t.tofu_bbox_min_ratio * h
            &&& r - l >= 2
            &&& d - u >= 2
            &&& ink_pixels(g, m, l + 1, r, u + 1, d).len() * 1000 <= t.tofu_interior_max_ratio * ((r
                - l - 1) * (d - u - 1))
            &&& 4 * ink_pixels(g, m, l, r + 1, u, u + 1).len() >= 3 * (r - l + 1)
            &&& 4 * ink_pixels(g, m, l, r + 1, d, d + 1).len() >= 3 * (r - l + 1)
            &&& 4 * ink_pixels(g, m, l, l + 1, u, d + 1).len() >= 3 * (d - u + 1)
            &&& 4 * ink_pixels(g, m, r, r + 1, u, d + 1).len() >= 3 * (d - u + 1)
        }
}

/// The answer on a cell: blank where its ink falls short of the share that its block
/// asks for, else a missing-glyph box where its ink draws a closed hollow rectangle
/// and the block is not Braille, else visible.
pub open spec fn tells_visibility(
    out: Result<(), InvisibleReason>,
    g: Gray,
    m: FgModel,
    b: CellBox,
    block: Block,
    t: Thresholds,
) -> bool {
    let (w, h) = (b.right - b.left + 1, b.bottom - b.top + 1);
    let share = if block == Block::Braille {
        t.eps_braille
    } else {
        t.eps_default
    };
    let blank = cell_ink(g, m, b).len() * 1000 < share * (w * h);
    let boxed = closed_box(g, m, cell_ink(g, m, b), w, h, t);
    &&& out == Err::<(), _>(InvisibleReason::Blank) <==> blank
    &&& out == Err::<(), _>(InvisibleReason::TofuBox) <==> !blank && block != Block::Braille
        && boxed
    &&& out is Ok <==> !blank && (block == Block::Braille || !boxed)
}

/// What visibility means, pixel by pixel. A cell is blank exactly if its ink falls
/// short of the share that its block asks for: one share for Braille, another for
/// all other blocks. Otherwise it is a missing-glyph box exactly if the block is
/// not Braille and its ink draws a closed hollow rectangle. In all other cases the
/// cell is visible.
pub proof fn visibility_means_enough_ink_and_no_closed_box(
    g: Gray,
    m: FgModel,
    b: CellBox,
    block: Block,
    t: Thresholds,
)
    requires
        b.left <= b.right,
        b.top <= b.bottom,
    ensures
        ({
            let (w, h) = (b.right - b.left + 1, b.bottom - b.top + 1);
            let share = if block == Block::Braille {
                t.eps_braille
            } else {
                t.eps_default
            };
            let blank = cell_ink(g, m, b).len() * 1000 < share * (w * h);
            let boxed = closed_box(g, m, cell_ink(g, m, b), w, h, t);
            &&& cell_ink(g, m, b).finite()
            &&& visibility(g, m, b, block, t) == Err::<(), _>(InvisibleReason::Blank) <==> blank
            &&& visibility(g, m, b, block, t) == Err::<(), _>(InvisibleReason::TofuBox) <==> !blank
                && block != Block::Braille && boxed
            &&& visibility(g, m, b, block, t) is Ok <==> !blank && (block == Block::Braille
                || !boxed)
        }),
{
    let (x0, y0) = (b.left as int, b.top as int);
    let x1 = clip_end(b.right, g.width);
    let y1 = clip_end(b.bottom, g.height);
    let (w, h) = (b.right - b.left + 1, b.bottom - b.top + 1);
    let ink = ink_pixels(g, m, x0, x1, y0, y1);
    assert(cell_ink(g, m, b) =~= ink);
    let cols = columns_with_ink(g, m, x0, x1, y0, y1);
    let rows = rows_with_ink(g, m, x0, x1, y0, y1);
    lemma_area_is_ink(g, m, x0, x1, y0, y1);
    let l = x0 + first_set(cols);
    let r = x0 + last_set(cols);
    let u = y0 + first_set(rows);
    let d = y0 + last_set(rows);
    lemma_area_is_ink(g, m, l + 1, r, u + 1, d);
    lemma_area_is_ink(g, m, l, r + 1, u, u + 1);
    lemma_area_is_ink(g, m, l, r + 1, d, d + 1);
    lemma_area_is_ink(g, m, l, l + 1, u, d + 1);
    lemma_area_is_ink(g, m, r, r + 1, u, d + 1);
    if last_set(cols) >= 0 {
        lemma_bounding_box(g, m, x0, x1, y0, y1);
        assert(bounded_by(ink, l, r, u, d));
        assert forall|l2: int, r2: int, u2: int, d2: int| #[trigger]
            bounded_by(ink, l2, r2, u2, d2) implies l2 == l && r2 == r && u2 == u && d2 == d by {
            lemma_one_bounding_box(ink, l, r, u, d, l2, r2, u2, d2);
        }
    } else {
        lemma_no_bounding_box(g, m, x0, x1, y0, y1);
    }
    let (bw, bh) = (r - l + 1, d - u + 1);
    assert((bw - 2) * (bh - 2) == (r - l - 1) * (d - u - 1));
    assert(closed_box(g, m, ink, w, h, t) == is_tofu(g, m, b, t));
}

/// Outside Braille the block makes no difference: two blocks that are both not
/// Braille get the same answer for the same cell.
pub proof fn only_braille_is_judged_apart(
    g: Gray,
    m: FgModel,
    b: CellBox,
    one: Block,
    other: Block,
    t: Thresholds,
)
    requires
        one != Block::Braille,
        other != Block::Braille,
    ensures
        visibility(g, m, b, one, t) == visibility(g, m, b, other, t),
{
}

/// The mask of a rectangle lists its pixels row by row.
proof fn lemma_mask_entry(g: Gray, m: FgModel, x0: int, x1: int, y0: int, y1: int)
    requires
        x0 <= x1,
        y0 <= y1,
    ensures
        area_mask(g, m, x0, x1, y0, y1).len() == (x1 - x0) * (y1 - y0),
        forall|i: int|
            0 <= i < (x1 - x0) * (y1 - y0) ==> #[trigger] area_mask(g, m, x0, x1, y0, y1)[i] == fg(
                g,
                m,
                x0 + i % (x1 - x0),
                y0 + i / (x1 - x0),
            ),
    decreases y1 - y0,
{
    let w = x1 - x0;
    if y1 == y0 {
        assert(w * 0 == 0) by (nonlinear_arith);
    } else {
        lemma_mask_entry(g, m, x0, x1, y0, y1 - 1);
        let n = y1 - 1 - y0;
        assert(w * (n + 1) == w * n + w) by (nonlinear_arith);
        let all = area_mask(g, m, x0, x1, y0, y1);
        let init = area_mask(g, m, x0, x1, y0, y1 - 1);
        let row = row_mask(g, m, x0, x1, y1 - 1);
        assert(all == init + row);
        assert forall|i: int| 0 <= i < w * (n + 1) implies #[trigger] all[i] == fg(
            g,
            m,
            x0 + i % w,
            y0 + i / w,
        ) by {
            if i >= w * n {
                let j = i - w * n;
                assert(i == n * w + j) by (nonlinear_arith)
                    requires
                        j == i - w * n,
                ;
                vstd::arithmetic::div_mod::lemma_fundamental_div_mod_converse(i, w, n, j);
                assert(all[i] == row[j]);
            }
        }
    }
}

/// The number of differences is the number of positions below the common length
/// at which the masks disagree, in either direction.
pub proof fn differences_are_disagreements(a: Seq<bool>, b: Seq<bool>, n: nat)
    requires
        n <= a.len(),
        n <= b.len(),
    ensures
        Set::new(|i: int| 0 <= i < n && a[i] != b[i]).finite(),
        differences(a, b, n) == Set::new(|i: int| 0 <= i < n && a[i] != b[i]).len(),
        differences(a, b, n) == differences(b, a, n),
    decreases n,
{
    let s = Set::new(|i: int| 0 <= i < n && a[i] != b[i]);
    if n == 0 {
        assert(s =~= Set::empty());
    } else {
        let k = (n - 1) as nat;
        differences_are_disagreements(a, b, k);
        let r = Set::new(|i: int| 0 <= i < k && a[i] != b[i]);
        if a[n - 1] != b[n - 1] {
            assert(s =~= r.insert(n - 1));
        } else {
            assert(s =~= r);
        }
    }
}

/// What isolation means, pixel by pixel. An icon intrudes exactly if one of its
/// band's rows has ink in a gutter, or if sentinel B's crop disagrees with the
/// reference at more positions than tolerated, counted in both directions. The
/// gutters are what lies strictly between sentinel A's crop and the icon's cell,
/// and what lies between the icon's cell and sentinel B's crop.
pub proof fn isolation_means_clean_gutters_and_an_unchanged_sentinel(
    g: Gray,
    m: FgModel,
    cal: Calibration,
    band: Band,
    reference: Seq<bool>,
    t: Thresholds,
)
    requires
        g.wf(),
        cal.wf(),
        band.top <= band.bottom < g.height,
        cal.pixel(4, 7) < g.width,
    ensures
        ({
            let rows = ink_pixels(
                g,
                m,
                0,
                g.width as int,
                band.top as int,
                band.bottom + 1,
            );
            let (b0, w) = (cal.pixel(4, -7), cal.pixel(4, 7) - cal.pixel(4, -7) + 1);
            let h = band.bottom - band.top + 1;
            let changed = Set::new(
                |i: int|
                    0 <= i < w * h && i < reference.len() && rows.contains(
                        (b0 + i % w, band.top + i / w),
                    ) != reference[i],
            );
            let floor = if reference.len() > 1 {
                reference.len() as int
            } else {
                1
            };
            &&& changed.finite()
            &&& bleed(g, m, cal, band, reference, t) == BleedVerdict::Intrusion <==> (exists|
                p: (int, int),
            | #[trigger]
                rows.contains(p) && (cal.pixel(2, 7) < p.0 < cal.pixel(3, -10) || cal.pixel(3, 10)
                    <= p.0 < cal.pixel(4, -7))) || changed.len() * 1000 > t.bleed_max * floor
        }),
{
    let rows = ink_pixels(g, m, 0, g.width as int, band.top as int, band.bottom + 1);
    let den = 20 * cal.unit as int;
    lemma_nearest_monotone(cal.place(4, -7), cal.place(4, 7), den);
    let (b0, b1) = (cal.pixel(4, -7), cal.pixel(4, 7));
    let w = b1 - b0 + 1;
    let h = band.bottom - band.top + 1;
    let c = cal.crop(4, band);
    assert(0 <= b0 <= b1 < g.width);
    assert(c.left == b0 && c.right == b1);
    lemma_mask_entry(g, m, b0, b1 + 1, band.top as int, band.bottom + 1);
    let mask = box_mask(g, m, c);
    assert(mask == area_mask(g, m, b0, b1 + 1, band.top as int, band.bottom + 1));
    let n = common_len(mask, reference);
    differences_are_disagreements(mask, reference, n);
    let changed = Set::new(
        |i: int|
            0 <= i < w * h && i < reference.len() && rows.contains((b0 + i % w, band.top + i / w))
                != reference[i],
    );
    let apart = Set::new(|i: int| 0 <= i < n && mask[i] != reference[i]);
    assert forall|i: int| changed.contains(i) == apart.contains(i) by {
        if 0 <= i < w * h && i < reference.len() {
            vstd::arithmetic::div_mod::lemma_fundamental_div_mod(i, w);
            vstd::arithmetic::div_mod::lemma_mod_bound(i, w);
            assert(0 <= i / w < h) by (nonlinear_arith)
                requires
                    0 <= i < w * h,
                    i == w * (i / w) + i % w,
                    0 <= i % w < w,
            ;
            assert(mask[i] == fg(g, m, b0 + i % w, band.top + i / w));
            lemma_ink_pixel(
                g,
                m,
                0,
                g.width as int,
                band.top as int,
                band.bottom + 1,
                b0 + i % w,
                band.top + i / w,
            );
        }
    }
    assert(changed =~= apart);
    assert forall|p: (int, int)| #[trigger] rows.contains(p) <==> 0 <= p.0 < g.width && band.top
        <= p.1 <= band.bottom && fg(g, m, p.0, p.1) by {
        lemma_ink_pixel(
            g,
            m,
            0,
            g.width as int,
            band.top as int,
            band.bottom + 1,
            p.0,
            p.1,
        );
    }
    if gutter_ink(g, m, cal, band) {
        if right_gutter_ink(g, m, cal, band) {
            let (x, y) = choose|x: int, y: int|
                cal.pixel(3, 10) <= x < cal.pixel(4, -7) && x < g.width - 1 && band.top <= y
                    <= band.bottom && y < g.height && #[trigger] fg(g, m, x, y);
            assert(rows.contains((x, y)));
        } else {
            let (x, y) = choose|x: int, y: int|
                cal.pixel(2, 7) < x < cal.pixel(3, -10) && x < g.width && band.top <= y
                    <= band.bottom && y < g.height && #[trigger] fg(g, m, x, y);
            assert(rows.contains((x, y)));
        }
    }
    if exists|p: (int, int)| #[trigger]
        rows.contains(p) && (cal.pixel(2, 7) < p.0 < cal.pixel(3, -10) || cal.pixel(3, 10) <= p.0
            < cal.pixel(4, -7)) {
        let p = choose|p: (int, int)| #[trigger]
            rows.contains(p) && (cal.pixel(2, 7) < p.0 < cal.pixel(3, -10) || cal.pixel(3, 10)
                <= p.0 < cal.pixel(4, -7));
        assert(fg(g, m, p.0, p.1));
        assert(gutter_ink(g, m, cal, band));
    }
}

/// A sentinel B that is gone or was pushed out of its cell is noticed: a crop
/// without ink against a reference whose ink exceeds the tolerance is an
/// intrusion.
pub proof fn a_missing_sentinel_is_an_intrusion(
    g: Gray,
    m: FgModel,
    cal: Calibration,
    band: Band,
    reference: Seq<bool>,
    t: Thresholds,
)
    requires
        g.wf(),
        cal.wf(),
        band.top <= band.bottom < g.height,
        cal.pixel(4, 7) < g.width,
        reference.len() == (cal.pixel(4, 7) - cal.pixel(4, -7) + 1) * (band.bottom - band.top + 1),
        forall|x: int, y: int|
            cal.pixel(4, -7) <= x <= cal.pixel(4, 7) && band.top <= y <= band.bottom
                ==> !#[trigger] fg(g, m, x, y),
        Set::new(|i: int| 0 <= i < reference.len() && reference[i]).len() * 1000 > t.bleed_max
            * reference.len(),
    ensures
        bleed(g, m, cal, band, reference, t) == BleedVerdict::Intrusion,
{
    isolation_means_clean_gutters_and_an_unchanged_sentinel(g, m, cal, band, reference, t);
    let rows = ink_pixels(g, m, 0, g.width as int, band.top as int, band.bottom + 1);
    lemma_nearest_monotone(cal.place(4, -7), cal.place(4, 7), 20 * cal.unit as int);
    let (b0, w) = (cal.pixel(4, -7), cal.pixel(4, 7) - cal.pixel(4, -7) + 1);
    let h = band.bottom - band.top + 1;
    let inked = Set::new(|i: int| 0 <= i < reference.len() && reference[i]);
    let changed = Set::new(
        |i: int|
            0 <= i < w * h && i < reference.len() && rows.contains((b0 + i % w, band.top + i / w))
                != reference[i],
    );
    assert(w * h >= 1) by (nonlinear_arith)
        requires
            w >= 1,
            h >= 1,
    ;
    assert forall|i: int| changed.contains(i) == inked.contains(i) by {
        if 0 <= i < w * h {
            vstd::arithmetic::div_mod::lemma_fundamental_div_mod(i, w);
            vstd::arithmetic::div_mod::lemma_mod_bound(i, w);
            assert(0 <= i / w < h) by (nonlinear_arith)
                requires
                    0 <= i < w * h,
                    i == w * (i / w) + i % w,
                    0 <= i % w < w,
            ;
            lemma_ink_pixel(
                g,
                m,
                0,
                g.width as int,
                band.top as int,
                band.bottom + 1,
                b0 + i % w,
                band.top + i / w,
            );
            assert(!fg(g, m, b0 + i % w, band.top + i / w));
        }
    }
    assert(changed =~= inked);
}

/// A mask reads the ink of its box row by row, from left to right.
pub proof fn masks_read_row_by_row(g: Gray, m: FgModel, b: CellBox, i: int)
    requires
        b.left <= b.right < g.width,
        b.top <= b.bottom < g.height,
        0 <= i < (b.right - b.left + 1) * (b.bottom - b.top + 1),
    ensures
        ({
            let w = b.right - b.left + 1;
            let v = g.data[(b.top + i / w) * g.width + (b.left + i % w)];
            &&& box_mask(g, m, b).len() == w * (b.bottom - b.top + 1)
            &&& box_mask(g, m, b)[i] == (v > m.bg + m.delta || v + m.delta < m.bg)
        }),
{
    lemma_mask_entry(
        g,
        m,
        b.left as int,
        clip_end(b.right, g.width),
        b.top as int,
        clip_end(b.bottom, g.height),
    );
}

} // verus!
