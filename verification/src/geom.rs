//! Fixed-grid geometry slicing.
//!
//! Cell boxes are derived arithmetically from the control-row anchors, never
//! from glyph-ink connectivity, which collapses when solid Block Elements touch
//! their sentinels. Sub-pixel positions are exact fractions over a common
//! denominator; the only conversion to whole pixels is the final rounding, so
//! non-integer cell widths cannot accumulate quantization drift along a line.
use crate::raster::{gray_of, lemma_gray_of, lemma_same_gray, Gray, GrayImage};
use crate::runs::{
    count_long, count_long_runs, find_spans, has_run, has_run_over, int_spans, run_at, spans,
    spans_are_maximal_runs,
};
use vstd::prelude::*;

verus! {

// ---------------------------------------------------------------------------
// Foreground model
// ---------------------------------------------------------------------------
/// Foreground/background separation model.
#[derive(Clone, Copy, Debug, PartialEq, Eq, Structural)]
pub struct FgModel {
    /// Estimated background luminance.
    pub bg: u8,
    /// Absolute luminance distance that counts as foreground ink.
    pub delta: u8,
}

/// The pixel at `(x, y)` differs from the background by more than the delta.
pub open spec fn fg(g: Gray, m: FgModel, x: int, y: int) -> bool {
    g.at(x, y) - m.bg > m.delta || m.bg - g.at(x, y) > m.delta
}

impl FgModel {
    /// Whether the pixel at `(x, y)` is foreground ink.
    pub fn is_fg(&self, gray: &GrayImage, x: u32, y: u32) -> (ink: bool)
        requires
            gray.wf(),
            x < gray.width,
            y < gray.height,
        ensures
            ink == fg(gray@, *self, x as int, y as int),
    {
        let p = gray.get_pixel(x, y);
        if p >= self.bg {
            p - self.bg > self.delta
        } else {
            self.bg - p > self.delta
        }
    }
}

// ---------------------------------------------------------------------------
// Background estimation
// ---------------------------------------------------------------------------
/// How often `v` occurs among the first values.
pub open spec fn occurrences(s: Seq<u8>, v: int) -> nat
    decreases s.len(),
{
    if s.len() == 0 {
        0
    } else {
        occurrences(s.drop_last(), v) + (if s.last() == v {
            1nat
        } else {
            0
        })
    }
}

proof fn lemma_occurrences_bound(s: Seq<u8>, v: int)
    ensures
        occurrences(s, v) <= s.len(),
    decreases s.len(),
{
    if s.len() > 0 {
        lemma_occurrences_bound(s.drop_last(), v);
    }
}

/// Counts each of the 256 luminance values.
pub fn histogram(values: &[u8]) -> (hist: Vec<u64>)
    ensures
        hist@.len() == 256,
        forall|v: int| 0 <= v < 256 ==> #[trigger] hist@[v] == occurrences(values@, v),
{
    let mut hist: Vec<u64> = Vec::new();
    for v in 0..256usize
        invariant
            hist@.len() == v,
            forall|k: int| 0 <= k < v ==> hist@[k] == 0,
    {
        hist.push(0);
    }
    for i in 0..values.len()
        invariant
            hist@.len() == 256,
            forall|v: int|
                0 <= v < 256 ==> #[trigger] hist@[v] == occurrences(values@.take(i as int), v),
    {
        let v = values[i] as usize;
        proof {
            assert(values@.take(i + 1).drop_last() =~= values@.take(i as int));
            lemma_occurrences_bound(values@.take(i as int), v as int);
            assert(hist@[v as int] <= i);
        }
        let n = hist[v];
        hist.set(v, n + 1);
    }
    assert(values@.take(values@.len() as int) =~= values@);
    hist
}

/// `v` is the most frequent value, the brightest one among equals.
pub open spec fn is_mode(s: Seq<u8>, v: int) -> bool {
    &&& 0 <= v < 256
    &&& forall|k: int| 0 <= k < 256 ==> #[trigger] occurrences(s, k) <= occurrences(s, v)
    &&& forall|k: int| v < k < 256 ==> #[trigger] occurrences(s, k) < occurrences(s, v)
}

/// The background luminance: the modal value.
pub open spec fn background(s: Seq<u8>) -> u8 {
    (choose|v: int| is_mode(s, v)) as u8
}

/// There is one background luminance.
pub proof fn background_is_unique(s: Seq<u8>, a: int, b: int)
    requires
        is_mode(s, a),
        is_mode(s, b),
    ensures
        a == b,
{
    assert(occurrences(s, a) <= occurrences(s, b));
    assert(occurrences(s, b) <= occurrences(s, a));
}

proof fn lemma_mode_below(s: Seq<u8>, n: int) -> (v: int)
    requires
        0 < n <= 256,
    ensures
        0 <= v < n,
        forall|k: int| 0 <= k < n ==> #[trigger] occurrences(s, k) <= occurrences(s, v),
        forall|k: int| v < k < n ==> #[trigger] occurrences(s, k) < occurrences(s, v),
    decreases n,
{
    if n == 1 {
        0
    } else {
        let v = lemma_mode_below(s, n - 1);
        if occurrences(s, n - 1) >= occurrences(s, v) {
            n - 1
        } else {
            v
        }
    }
}

/// Every image has a background luminance: the most frequent value, the brightest
/// one among equals.
pub proof fn background_is_the_mode(s: Seq<u8>)
    ensures
        is_mode(s, background(s) as int),
{
    let v = lemma_mode_below(s, 256);
    assert(is_mode(s, v));
}

/// Estimate background luminance as the modal grayscale value, the brightest
/// one among equals.
///
/// The terminal background dominates any capture: the matrix occupies a small
/// fraction of the frame. Frame sampling is unreliable, because window captures
/// carry title-bar chrome, alpha padding and rounded corners.
pub fn estimate_background(gray: &GrayImage) -> (bg: u8)
    ensures
        bg == background(gray@.data),
        is_mode(gray@.data, bg as int),
{
    let hist = histogram(gray.data.as_slice());
    let mut best: usize = 0;
    for v in 1..256usize
        invariant
            hist@.len() == 256,
            best < v,
            forall|k: int| 0 <= k < v ==> hist@[k] <= hist@[best as int],
            forall|k: int| best < k < v ==> hist@[k] < hist@[best as int],
    {
        if hist[v] >= hist[best] {
            best = v;
        }
    }
    proof {
        assert(hist@[best as int] == occurrences(gray.data@, best as int));
        assert forall|v: int| 0 <= v < 256 implies #[trigger] occurrences(gray.data@, v)
            <= occurrences(gray.data@, best as int) by {
            assert(hist@[v] <= hist@[best as int]);
        }
        assert forall|v: int| best < v < 256 implies #[trigger] occurrences(gray.data@, v)
            < occurrences(gray.data@, best as int) by {
            assert(hist@[v] < hist@[best as int]);
        }
        assert(is_mode(gray.data@, best as int));
        background_is_unique(
            gray.data@,
            best as int,
            choose|v: int| is_mode(gray.data@, v),
        );
    }
    best as u8
}

// ---------------------------------------------------------------------------
// Ink along an axis
// ---------------------------------------------------------------------------
/// Ink flags of column `x`, top to bottom.
pub open spec fn column_ink(g: Gray, m: FgModel, x: int) -> Seq<bool> {
    Seq::new(g.height as nat, |y: int| fg(g, m, x, y))
}

/// Ink flags of row `y`, left to right.
pub open spec fn row_ink(g: Gray, m: FgModel, y: int) -> Seq<bool> {
    Seq::new(g.width as nat, |x: int| fg(g, m, x, y))
}

/// Some pixel of the inclusive column range of row `y` is ink.
pub open spec fn ink_in_columns(g: Gray, m: FgModel, x0: int, x1: int, y: int) -> bool {
    exists|x: int| x0 <= x <= x1 && fg(g, m, x, y)
}

/// Some pixel of the inclusive row range of column `x` is ink.
pub open spec fn ink_in_rows(g: Gray, m: FgModel, y0: int, y1: int, x: int) -> bool {
    exists|y: int| y0 <= y <= y1 && fg(g, m, x, y)
}

fn column_flags(gray: &GrayImage, model: &FgModel, x: u32) -> (out: Vec<bool>)
    requires
        gray.wf(),
        x < gray.width,
    ensures
        out@ == column_ink(gray@, *model, x as int),
{
    let mut out: Vec<bool> = Vec::new();
    for y in 0..gray.height
        invariant
            gray.wf(),
            x < gray.width,
            out@.len() == y,
            forall|k: int| 0 <= k < y ==> out@[k] == fg(gray@, *model, x as int, k),
    {
        out.push(model.is_fg(gray, x, y));
    }
    assert(out@ =~= column_ink(gray@, *model, x as int));
    out
}

fn row_flags(gray: &GrayImage, model: &FgModel, y: u32) -> (out: Vec<bool>)
    requires
        gray.wf(),
        y < gray.height,
    ensures
        out@ == row_ink(gray@, *model, y as int),
{
    let mut out: Vec<bool> = Vec::new();
    for x in 0..gray.width
        invariant
            gray.wf(),
            y < gray.height,
            out@.len() == x,
            forall|k: int| 0 <= k < x ==> out@[k] == fg(gray@, *model, k, y as int),
    {
        out.push(model.is_fg(gray, x, y));
    }
    assert(out@ =~= row_ink(gray@, *model, y as int));
    out
}

/// Whether row `y` holds ink in the inclusive column range.
pub fn any_in_columns(gray: &GrayImage, model: &FgModel, x0: u32, x1: u32, y: u32) -> (found: bool)
    requires
        gray.wf(),
        x0 <= x1 ==> x1 < gray.width && y < gray.height,
    ensures
        found == ink_in_columns(gray@, *model, x0 as int, x1 as int, y as int),
{
    if x0 > x1 {
        return false;
    }
    for x in x0..x1 + 1
        invariant
            gray.wf(),
            x0 <= x1 < gray.width,
            y < gray.height,
            forall|k: int| x0 <= k < x ==> !fg(gray@, *model, k, y as int),
    {
        if model.is_fg(gray, x, y) {
            return true;
        }
    }
    false
}

/// Whether column `x` holds ink in the inclusive row range.
pub fn any_in_rows(gray: &GrayImage, model: &FgModel, y0: u32, y1: u32, x: u32) -> (found: bool)
    requires
        gray.wf(),
        y0 <= y1 ==> y1 < gray.height && x < gray.width,
    ensures
        found == ink_in_rows(gray@, *model, y0 as int, y1 as int, x as int),
{
    if y0 > y1 {
        return false;
    }
    for y in y0..y1 + 1
        invariant
            gray.wf(),
            y0 <= y1 < gray.height,
            x < gray.width,
            forall|k: int| y0 <= k < y ==> !fg(gray@, *model, x as int, k),
    {
        if model.is_fg(gray, x, y) {
            return true;
        }
    }
    false
}

// ---------------------------------------------------------------------------
// Structural lines
// ---------------------------------------------------------------------------
/// Ink runs longer than three tenths of an axis are window chrome, not glyph
/// ink, which is bounded by the line pitch.
pub open spec fn structural_limit(extent: int) -> int {
    extent * 3 / 10
}

/// Column `x` carries window chrome.
pub open spec fn chrome_column(g: Gray, m: FgModel, x: int) -> bool {
    has_run(column_ink(g, m, x), structural_limit(g.height as int) + 1)
}

/// Row `y` carries window chrome.
pub open spec fn chrome_row(g: Gray, m: FgModel, y: int) -> bool {
    has_run(row_ink(g, m, y), structural_limit(g.width as int) + 1)
}

/// The pixels of the image, with the background in place of window chrome.
pub open spec fn without_chrome(g: Gray, m: FgModel) -> spec_fn(int, int) -> u8 {
    |x: int, y: int|
        if chrome_column(g, m, x) || chrome_row(g, m, y) {
            m.bg
        } else {
            g.at(x, y)
        }
}

/// The image with its window chrome blanked out.
pub open spec fn cleaned(g: Gray, m: FgModel) -> Gray {
    gray_of(g.width, g.height, without_chrome(g, m))
}

/// Blank out window chrome that survives capture: full-height vertical lines
/// (window borders, scrollbars) and full-width horizontal lines (title bars,
/// separator rules). Without this, chrome bridges the gaps between text rows
/// and band detection merges the whole frame into one band.
pub fn suppress_structural_lines(gray: &GrayImage, model: &FgModel) -> (out: GrayImage)
    requires
        gray.wf(),
    ensures
        out.wf(),
        out@ == cleaned(gray@, *model),
{
    let w = gray.width;
    let h = gray.height;
    let limit_h = h as u64 * 3 / 10;
    let limit_w = w as u64 * 3 / 10;
    let mut out = GrayImage { width: w, height: h, data: gray.data.clone() };
    assert(out.data@ =~= gray.data@);
    for x in 0..w
        invariant
            gray.wf(),
            out.wf(),
            w == gray.width,
            h == gray.height,
            out.width == w,
            out.height == h,
            limit_h == structural_limit(h as int),
            forall|a: int, b: int|
                0 <= a < w && 0 <= b < h ==> #[trigger] out.at(a, b) == (if a < x && chrome_column(
                    gray@,
                    *model,
                    a,
                ) {
                    model.bg
                } else {
                    gray.at(a, b)
                }),
    {
        let flags = column_flags(gray, model, x);
        if has_run_over(flags.as_slice(), limit_h) {
            for y in 0..h
                invariant
                    gray.wf(),
                    out.wf(),
                    x < w,
                    w == gray.width,
                    h == gray.height,
                    out.width == w,
                    out.height == h,
                    chrome_column(gray@, *model, x as int),
                    forall|a: int, b: int|
                        0 <= a < w && 0 <= b < h ==> #[trigger] out.at(a, b) == (if (a < x
                            && chrome_column(gray@, *model, a)) || (a == x && b < y) {
                            model.bg
                        } else {
                            gray.at(a, b)
                        }),
            {
                out.put_pixel(x, y, model.bg);
            }
        }
    }
    for y in 0..h
        invariant
            gray.wf(),
            out.wf(),
            w == gray.width,
            h == gray.height,
            out.width == w,
            out.height == h,
            limit_w == structural_limit(w as int),
            forall|a: int, b: int|
                0 <= a < w && 0 <= b < h ==> #[trigger] out.at(a, b) == (if chrome_column(
                    gray@,
                    *model,
                    a,
                ) || (b < y && chrome_row(gray@, *model, b)) {
                    model.bg
                } else {
                    gray.at(a, b)
                }),
    {
        let flags = row_flags(gray, model, y);
        if has_run_over(flags.as_slice(), limit_w) {
            for x in 0..w
                invariant
                    gray.wf(),
                    out.wf(),
                    y < h,
                    w == gray.width,
                    h == gray.height,
                    out.width == w,
                    out.height == h,
                    chrome_row(gray@, *model, y as int),
                    forall|a: int, b: int|
                        0 <= a < w && 0 <= b < h ==> #[trigger] out.at(a, b) == (if chrome_column(
                            gray@,
                            *model,
                            a,
                        ) || (b < y && chrome_row(gray@, *model, b)) || (b == y && a < x) {
                            model.bg
                        } else {
                            gray.at(a, b)
                        }),
            {
                out.put_pixel(x, y, model.bg);
            }
        }
    }
    proof {
        let g = gray@;
        let m = *model;
        lemma_gray_of(w, h, without_chrome(g, m));
        assert forall|x: int, y: int| 0 <= x < w && 0 <= y < h implies #[trigger] out@.at(x, y)
            == cleaned(g, m).at(x, y) by {
            assert(out.at(x, y) == without_chrome(g, m)(x, y));
        }
        lemma_same_gray(out@, cleaned(g, m));
    }
    out
}

// ---------------------------------------------------------------------------
// Text bands
// ---------------------------------------------------------------------------
/// A horizontal run of rows containing foreground ink (inclusive bounds).
#[derive(Clone, Copy, Debug, PartialEq, Eq, Structural)]
pub struct Band {
    /// First row.
    pub top: u32,
    /// Last row.
    pub bottom: u32,
}

/// Bands as inclusive row ranges.
pub open spec fn band_spans(b: Seq<Band>) -> Seq<(int, int)> {
    b.map_values(|x: Band| (x.top as int, x.bottom as int))
}

/// Number of vertical ink runs of at least two pixels in column `x`.
pub open spec fn run_count(g: Gray, m: FgModel, x: int) -> nat {
    count_long(spans(column_ink(g, m, x)))
}

/// Run count that makes a column the start of the boundary bar: three quarters
/// of the expected rows.
pub open spec fn bar_high(expected: usize) -> u32 {
    (if expected * 3 / 4 > 1 {
        (expected * 3 / 4) as usize
    } else {
        1usize
    }) as u32
}

/// Run count that keeps a column inside the boundary bar: a quarter of the
/// expected rows.
pub open spec fn bar_low(expected: usize) -> u32 {
    (if expected / 4 > 1 {
        expected / 4
    } else {
        1usize
    }) as u32
}

/// The first column at or after `x` whose run count reaches `high`, or the
/// width.
pub open spec fn bar_start(g: Gray, m: FgModel, high: nat, x: int) -> int
    decreases g.width - x,
{
    if x >= g.width {
        g.width as int
    } else if run_count(g, m, x) >= high {
        x
    } else {
        bar_start(g, m, high, x + 1)
    }
}

/// The last column of the bar that starts at `x0`, searched from `x1` on: at
/// most five columns further, each with a run count of at least `low`.
pub open spec fn bar_end(g: Gray, m: FgModel, low: nat, x0: int, x1: int) -> int
    decreases g.width - x1,
{
    if x1 + 1 < g.width && run_count(g, m, x1 + 1) >= low && x1 - x0 < 5 {
        bar_end(g, m, low, x0, x1 + 1)
    } else {
        x1
    }
}

/// Row flags of a column strip.
pub open spec fn strip_ink(g: Gray, m: FgModel, x0: int, x1: int) -> Seq<bool> {
    Seq::new(g.height as nat, |y: int| ink_in_columns(g, m, x0, x1, y))
}

/// The rendered rows of a page: the ink runs of the boundary-bar strip.
pub open spec fn text_bands(g: Gray, m: FgModel, expected: usize) -> Seq<(int, int)> {
    let x0 = bar_start(g, m, bar_high(expected) as nat, 0);
    if expected == 0 || x0 >= g.width {
        seq![]
    } else {
        spans(strip_ink(g, m, x0, bar_end(g, m, bar_low(expected) as nat, x0, x0)))
    }
}

/// The rendered rows of a page as bands.
pub open spec fn found_bands(g: Gray, m: FgModel, expected: usize) -> Seq<Band> {
    text_bands(g, m, expected).map_values(
        |s: (int, int)| Band { top: s.0 as u32, bottom: s.1 as u32 },
    )
}

fn count_runs(gray: &GrayImage, model: &FgModel, x: u32) -> (n: u32)
    requires
        gray.wf(),
        x < gray.width,
    ensures
        n == run_count(gray@, *model, x as int),
{
    let flags = column_flags(gray, model, x);
    count_long_runs(flags.as_slice())
}

/// Inclusive spans as bands.
fn bands_of(s: &[(u32, u32)]) -> (out: Vec<Band>)
    ensures
        band_spans(out@) == int_spans(s@),
{
    let mut out: Vec<Band> = Vec::new();
    for i in 0..s.len()
        invariant
            out@.len() == i,
            forall|k: int| 0 <= k < i ==> (#[trigger] out@[k]).top == s@[k].0 && out@[k].bottom
                == s@[k].1,
    {
        out.push(Band { top: s[i].0, bottom: s[i].1 });
    }
    assert(band_spans(out@) =~= int_spans(s@));
    out
}

/// Detect rendered rows via the boundary-bar strip: the leftmost column cluster
/// whose ink run count reaches the expected row count, within tolerance (a bar
/// produces one short run per rendered row; braille dot columns fragment into
/// more runs but sit right of the bar, and columns of stacked full-cell glyphs
/// produce one long run).
///
/// The bars are vertically isolated by the line pitch, unlike full-cell glyphs,
/// whose ink bridges adjacent rows and defeats whole-row projection.
pub fn find_text_bands(gray: &GrayImage, model: &FgModel, expected_rows: usize) -> (out: Vec<Band>)
    requires
        gray.wf(),
    ensures
        out@ == found_bands(gray@, *model, expected_rows),
        band_spans(out@) == text_bands(gray@, *model, expected_rows),
        forall|i: int|
            0 <= i < out@.len() ==> (#[trigger] out@[i]).top <= out@[i].bottom && out@[i].bottom
                < gray.height,
{
    if expected_rows == 0 {
        let out: Vec<Band> = Vec::new();
        assert(band_spans(out@) =~= seq![]);
        assert(out@ =~= found_bands(gray@, *model, expected_rows));
        return out;
    }
    let h3 = (expected_rows as u128 * 3 / 4) as usize;
    let high = (if h3 > 1 {
        h3
    } else {
        1
    }) as u32;
    let l1 = expected_rows / 4;
    let low = (if l1 > 1 {
        l1
    } else {
        1
    }) as u32;
    let w = gray.width;
    let mut x0: u32 = 0;
    while x0 < w && count_runs(gray, model, x0) < high
        invariant
            gray.wf(),
            w == gray.width,
            x0 <= w,
            bar_start(gray@, *model, high as nat, 0) == bar_start(
                gray@,
                *model,
                high as nat,
                x0 as int,
            ),
        decreases w - x0,
    {
        x0 += 1;
    }
    if x0 == w {
        let out: Vec<Band> = Vec::new();
        assert(band_spans(out@) =~= seq![]);
        assert(out@ =~= found_bands(gray@, *model, expected_rows));
        return out;
    }
    let mut x1 = x0;
    while x1 < w - 1 && count_runs(gray, model, x1 + 1) >= low && x1 - x0 < 5
        invariant
            gray.wf(),
            w == gray.width,
            x0 <= x1 < w,
            bar_end(gray@, *model, low as nat, x0 as int, x0 as int) == bar_end(
                gray@,
                *model,
                low as nat,
                x0 as int,
                x1 as int,
            ),
        decreases w - x1,
    {
        x1 += 1;
    }
    let mut flags: Vec<bool> = Vec::new();
    for y in 0..gray.height
        invariant
            gray.wf(),
            x0 <= x1 < gray.width,
            flags@.len() == y,
            forall|k: int|
                0 <= k < y ==> flags@[k] == ink_in_columns(
                    gray@,
                    *model,
                    x0 as int,
                    x1 as int,
                    k,
                ),
    {
        flags.push(any_in_columns(gray, model, x0, x1, y));
    }
    assert(flags@ =~= strip_ink(gray@, *model, x0 as int, x1 as int));
    let found = find_spans(flags.as_slice());
    let out = bands_of(found.as_slice());
    proof {
        let t = text_bands(gray@, *model, expected_rows);
        assert(band_spans(out@) == t);
        assert forall|i: int| 0 <= i < out@.len() implies (out@[i].top as int, out@[i].bottom as int)
            == #[trigger] t[i] by {
            assert(band_spans(out@)[i] == t[i]);
        }
        assert(out@ =~= found_bands(gray@, *model, expected_rows));
        spans_are_maximal_runs(flags@);
    }
    out
}

// ---------------------------------------------------------------------------
// Grid band selection
// ---------------------------------------------------------------------------
/// Vertical distance from band `i` to the next one.
pub open spec fn line_pitch(b: Seq<Band>, i: int) -> int {
    b[i + 1].top - b[i].top
}

/// Sum of the squares of the `n` line pitches from band `s` on.
pub open spec fn pitch_squares(b: Seq<Band>, s: int, n: nat) -> int
    decreases n,
{
    if n == 0 {
        0
    } else {
        pitch_squares(b, s, (n - 1) as nat) + line_pitch(b, s + n - 1) * line_pitch(b, s + n - 1)
    }
}

/// Spread of the line pitches of the `expected` bands from `s` on: their
/// variance times the square of their number. The pitches themselves add up to
/// the distance from the first band to the last.
pub open spec fn pitch_spread(b: Seq<Band>, s: int, expected: int) -> int {
    let n = expected - 1;
    let sum = b[s + n].top - b[s].top;
    n * pitch_squares(b, s, n as nat) - sum * sum
}

/// `s` is the first window of `expected` consecutive bands with the least
/// spread.
pub open spec fn tightest_window(b: Seq<Band>, expected: int, s: int) -> bool {
    &&& 0 <= s <= b.len() - expected
    &&& forall|t: int|
        0 <= t <= b.len() - expected ==> pitch_spread(b, s, expected) <= #[trigger] pitch_spread(
            b,
            t,
            expected,
        )
    &&& forall|t: int|
        0 <= t < s ==> pitch_spread(b, s, expected) < #[trigger] pitch_spread(b, t, expected)
}

/// The `expected` bands that form the text grid.
pub open spec fn grid_bands(b: Seq<Band>, expected: int) -> Seq<Band> {
    if expected == 0 || b.len() <= expected {
        b
    } else {
        let s = choose|s: int| tightest_window(b, expected, s);
        b.subrange(s, s + expected)
    }
}

/// There is one first window with the least spread.
pub proof fn tightest_window_is_unique(b: Seq<Band>, expected: int, s: int, t: int)
    requires
        tightest_window(b, expected, s),
        tightest_window(b, expected, t),
    ensures
        s == t,
{
    assert(pitch_spread(b, s, expected) <= pitch_spread(b, t, expected));
    assert(pitch_spread(b, t, expected) <= pitch_spread(b, s, expected));
}

proof fn lemma_first_least(b: Seq<Band>, expected: int, n: int) -> (s: int)
    requires
        0 < n,
    ensures
        0 <= s < n,
        forall|t: int|
            0 <= t < n ==> pitch_spread(b, s, expected) <= #[trigger] pitch_spread(b, t, expected),
        forall|t: int|
            0 <= t < s ==> pitch_spread(b, s, expected) < #[trigger] pitch_spread(b, t, expected),
    decreases n,
{
    if n == 1 {
        0
    } else {
        let s = lemma_first_least(b, expected, n - 1);
        if pitch_spread(b, n - 1, expected) < pitch_spread(b, s, expected) {
            n - 1
        } else {
            s
        }
    }
}

/// An over-full detection has a first window with the least spread, and the grid
/// bands are that window.
pub proof fn grid_bands_are_the_tightest_window(b: Seq<Band>, expected: int) -> (s: int)
    requires
        0 < expected < b.len(),
    ensures
        tightest_window(b, expected, s),
        grid_bands(b, expected) == b.subrange(s, s + expected),
{
    let s = lemma_first_least(b, expected, b.len() - expected + 1);
    assert(tightest_window(b, expected, s));
    tightest_window_is_unique(b, expected, s, choose|s: int| tightest_window(b, expected, s));
    s
}

proof fn lemma_square_bound(p: int)
    requires
        -0x1_0000_0000 < p < 0x1_0000_0000,
    ensures
        0 <= p * p <= 0xFFFF_FFFE_0000_0001,
{
    assert(0 <= p * p <= 0xFFFF_FFFE_0000_0001) by (nonlinear_arith)
        requires
            -0x1_0000_0000 < p < 0x1_0000_0000,
    ;
}

/// Sum of the squares of a window's line pitches, and the square of their sum.
fn moments(bands: &[Band], s: usize, expected: usize) -> (v: (u128, i128))
    requires
        0 < expected,
        s + expected <= bands@.len(),
    ensures
        v.0 == pitch_squares(bands@, s as int, (expected - 1) as nat),
        0 <= v.1 <= 0xFFFF_FFFE_0000_0001,
        v.1 == (bands@[s + expected - 1].top - bands@[s as int].top) * (bands@[s + expected
            - 1].top - bands@[s as int].top),
{
    let len = bands.len();
    let n = expected - 1;
    let mut squares: u128 = 0;
    for k in 0..n
        invariant
            n == expected - 1,
            s + expected <= bands@.len() == len,
            squares == pitch_squares(bands@, s as int, k as nat),
            0 <= squares <= k * 0xFFFF_FFFE_0000_0001,
    {
        let p = bands[s + k + 1].top as i128 - bands[s + k].top as i128;
        proof {
            lemma_square_bound(p as int);
            assert(k < usize::MAX);
            assert(squares + p * p < 0x1_0000_0000_0000_0000 * 0x1_0000_0000_0000_0000);
        }
        squares = squares + (p * p) as u128;
    }
    let sum = bands[s + n].top as i128 - bands[s].top as i128;
    proof {
        lemma_square_bound(sum as int);
    }
    (squares, sum * sum)
}

/// Whether `n * s1 - t1` is less than `n * s2 - t2`, where the products need not
/// fit into a machine word.
fn tighter(n: u64, s1: u128, t1: i128, s2: u128, t2: i128) -> (less: bool)
    requires
        0 <= t1 <= 0xFFFF_FFFE_0000_0001,
        0 <= t2 <= 0xFFFF_FFFE_0000_0001,
    ensures
        less == (n * s1 - t1 < n * s2 - t2),
{
    let e = t1 - t2;
    if n == 0 {
        return e > 0;
    }
    if s1 >= s2 {
        let d = s1 - s2;
        if e <= 0 {
            proof {
                assert(n * s1 - t1 >= n * s2 - t2) by (nonlinear_arith)
                    requires
                        0 < n,
                        s1 >= s2,
                        t1 - t2 <= 0,
                ;
            }
            false
        } else {
            let q = (e - 1) as u128 / n as u128;
            proof {
                assert((d <= q) == (n * s1 - t1 < n * s2 - t2)) by (nonlinear_arith)
                    requires
                        0 < n,
                        d == s1 - s2,
                        e == t1 - t2,
                        e > 0,
                        q == (e - 1) as int / (n as int),
                ;
            }
            d <= q
        }
    } else {
        let d = s2 - s1;
        if e >= 0 {
            proof {
                assert(n * s1 - t1 < n * s2 - t2) by (nonlinear_arith)
                    requires
                        0 < n,
                        s1 < s2,
                        t1 - t2 >= 0,
                ;
            }
            true
        } else {
            let q = (-e) as u128 / n as u128;
            proof {
                assert((d > q) == (n * s1 - t1 < n * s2 - t2)) by (nonlinear_arith)
                    requires
                        0 < n,
                        d == s2 - s1,
                        e == t1 - t2,
                        e < 0,
                        q == (-e) as int / (n as int),
                ;
            }
            d > q
        }
    }
}

/// Select the `expected` consecutive bands that form the text grid from an
/// over-full detection: window title bars survive as spurious bands with an
/// off-grid pitch, so the grid is the contiguous group with the most uniform
/// line pitch. A detection that is not over-full is returned as it is.
pub fn select_grid_bands(bands: &[Band], expected: usize) -> (out: Vec<Band>)
    ensures
        out@ == grid_bands(bands@, expected as int),
        out@.len() <= bands@.len(),
        forall|i: int| 0 <= i < out@.len() ==> bands@.contains(#[trigger] out@[i]),
{
    let n = bands.len();
    let mut best: usize = 0;
    let mut take = n;
    if expected != 0 && n > expected {
        take = expected;
        let (mut squares, mut sum2) = moments(bands, 0, expected);
        for s in 1..n - expected + 1
            invariant
                n == bands@.len(),
                0 < expected < n,
                best < s,
                0 <= sum2 <= 0xFFFF_FFFE_0000_0001,
                (expected - 1) * squares - sum2 == pitch_spread(
                    bands@,
                    best as int,
                    expected as int,
                ),
                forall|t: int|
                    0 <= t < s ==> pitch_spread(bands@, best as int, expected as int)
                        <= #[trigger] pitch_spread(bands@, t, expected as int),
                forall|t: int|
                    0 <= t < best ==> pitch_spread(bands@, best as int, expected as int)
                        < #[trigger] pitch_spread(bands@, t, expected as int),
        {
            let (q, t2) = moments(bands, s, expected);
            assert((expected - 1) * q - t2 == pitch_spread(bands@, s as int, expected as int));
            if tighter((expected - 1) as u64, q, t2, squares, sum2) {
                squares = q;
                sum2 = t2;
                best = s;
            }
        }
        proof {
            assert(tightest_window(bands@, expected as int, best as int));
            tightest_window_is_unique(
                bands@,
                expected as int,
                best as int,
                choose|s: int| tightest_window(bands@, expected as int, s),
            );
        }
    }
    let mut out: Vec<Band> = Vec::new();
    for i in best..best + take
        invariant
            best + take <= n == bands@.len(),
            out@ == bands@.subrange(best as int, i as int),
    {
        out.push(bands[i]);
        assert(out@ =~= bands@.subrange(best as int, i + 1));
    }
    assert(take == n ==> out@ =~= bands@);
    assert forall|i: int| 0 <= i < out@.len() implies bands@.contains(#[trigger] out@[i]) by {
        assert(bands@[best + i] == out@[i]);
    }
    out
}

// ---------------------------------------------------------------------------
// Calibration
// ---------------------------------------------------------------------------
/// Horizontal cluster `(start_x, end_x)` of ink columns within a band,
/// inclusive on both ends.
pub type Cluster = (u32, u32);

/// The ink columns of a band as contiguous runs.
pub open spec fn band_clusters(g: Gray, m: FgModel, b: Band) -> Seq<(int, int)> {
    spans(Seq::new(g.width as nat, |x: int| ink_in_rows(g, m, b.top as int, b.bottom as int, x)))
}

/// The band's rows lie inside the image.
pub open spec fn band_inside(g: Gray, b: Band) -> bool {
    g.width > 0 && b.top <= b.bottom ==> b.bottom < g.height
}

/// Project a band's ink onto the x axis and split into contiguous runs.
pub fn column_clusters(gray: &GrayImage, model: &FgModel, band: &Band) -> (out: Vec<Cluster>)
    requires
        gray.wf(),
        band_inside(gray@, *band),
    ensures
        int_spans(out@) == band_clusters(gray@, *model, *band),
{
    let mut flags: Vec<bool> = Vec::new();
    for x in 0..gray.width
        invariant
            gray.wf(),
            band_inside(gray@, *band),
            flags@.len() == x,
            forall|k: int|
                0 <= k < x ==> flags@[k] == ink_in_rows(
                    gray@,
                    *model,
                    band.top as int,
                    band.bottom as int,
                    k,
                ),
    {
        flags.push(any_in_rows(gray, model, band.top, band.bottom, x));
    }
    assert(flags@ =~= Seq::new(
        gray.width as nat,
        |x: int| ink_in_rows(gray@, *model, band.top as int, band.bottom as int, x),
    ));
    find_spans(flags.as_slice())
}

/// Geometry failures that invalidate the whole run.
#[derive(Clone, Copy, Debug, PartialEq, Eq, Structural)]
pub enum GeometryError {
    /// Fewer than two ink clusters in the control row.
    MissingBars,
    /// A boundary bar is wider than three quarters of the cell pitch.
    BarsTooWide,
    /// The cell pitch is under four pixels.
    ImplausiblePitch,
    /// A sentinel is more than half a cell away from its place.
    SentinelSpacingMismatch,
    /// Detected text-band count disagrees with the sidecar-declared row count.
    BandMismatch {
        /// Bands detected in the capture.
        found: usize,
        /// Rows the sidecar declares.
        expected: usize,
    },
}

/// Control-row-derived grid calibration. Positions are exact fractions: a field
/// stands for its value divided by `unit`, in pixels.
#[derive(Clone, Copy, Debug, PartialEq, Eq, Structural)]
pub struct Calibration {
    /// Center of the column-0 boundary bar.
    pub origin_x: u64,
    /// Horizontal distance between adjacent cell centers.
    pub pitch: u64,
    /// Common denominator of the two.
    pub unit: u64,
}

/// Twice the center of a cluster.
pub open spec fn twice_center(c: (int, int)) -> int {
    c.0 + c.1
}

/// A boundary bar is wider than three quarters of the pitch, which is `twelve`
/// twelfths of a pixel.
pub open spec fn too_wide(c: (int, int), twelve: int) -> bool {
    16 * (c.1 - c.0 + 1) > twelve
}

/// Sentinel cluster `c` is off column `col` by more than half a pitch. The
/// origin and the pitch are in twelfths of a pixel.
pub open spec fn off_column(c: (int, int), origin: int, pitch: int, col: int) -> bool {
    let d = 6 * twice_center(c) - (origin + col * pitch);
    2 * d > pitch || 2 * d < -pitch
}

/// Calibration of a control row with the given ink clusters. The boundary bars
/// stand on columns 0 and 6, the sentinels on columns 2 and 4, so a sixth of
/// the distance between the bars is the pitch.
pub open spec fn calibration_of(c: Seq<(int, int)>) -> Result<(int, int), GeometryError> {
    let origin = 6 * twice_center(c[0]);
    let pitch = twice_center(c.last()) - twice_center(c[0]);
    if c.len() < 2 {
        Err(GeometryError::MissingBars)
    } else if pitch < 4 * 12 {
        Err(GeometryError::ImplausiblePitch)
    } else if too_wide(c[0], pitch) || too_wide(c.last(), pitch) {
        Err(GeometryError::BarsTooWide)
    } else if c.len() == 4 && (off_column(c[1], origin, pitch, 2) || off_column(
        c[2],
        origin,
        pitch,
        4,
    )) {
        Err(GeometryError::SentinelSpacingMismatch)
    } else {
        Ok((origin, pitch))
    }
}

fn bar_too_wide(c: Cluster, pitch: u64) -> (wide: bool)
    requires
        c.0 <= c.1,
    ensures
        wide == too_wide((c.0 as int, c.1 as int), pitch as int),
{
    16 * ((c.1 - c.0) as u64 + 1) > pitch
}

fn sentinel_off(c: Cluster, origin: u64, pitch: u64, col: u64) -> (off: bool)
    requires
        origin <= 0x10_0000_0000,
        pitch <= 0x10_0000_0000,
        col <= 8,
    ensures
        off == off_column((c.0 as int, c.1 as int), origin as int, pitch as int, col as int),
{
    let at = 6 * (c.0 as i64 + c.1 as i64);
    assert(0 <= col * pitch <= 8 * pitch) by (nonlinear_arith)
        requires
            col <= 8,
    ;
    let place = origin as i64 + (col * pitch) as i64;
    let d = at - place;
    2 * d > pitch as i64 || 2 * d < -(pitch as i64)
}

/// Calibrate against the control band `| A B |` (pure ASCII, no touching
/// glyphs possible).
///
/// Errors when the two thin boundary bars cannot be identified or the sentinel
/// spacing contradicts the derived pitch.
pub fn calibrate(gray: &GrayImage, model: &FgModel, control: &Band) -> (out: Result<
    Calibration,
    GeometryError,
>)
    requires
        gray.wf(),
        band_inside(gray@, *control),
    ensures
        out == control_calibration(gray@, *model, *control),
        match calibration_of(band_clusters(gray@, *model, *control)) {
            Ok(v) => out is Ok && out->Ok_0.unit == 12 && out->Ok_0.origin_x == v.0
                && out->Ok_0.pitch == v.1 && out->Ok_0.wf(),
            Err(e) => out == Err::<Calibration, GeometryError>(e),
        },
{
    let clusters = column_clusters(gray, model, control);
    let ghost c = band_clusters(gray@, *model, *control);
    let n = clusters.len();
    proof {
        assert(int_spans(clusters@).len() == n);
        assert(forall|i: int| #![auto]
            0 <= i < n ==> c[i] == (clusters@[i].0 as int, clusters@[i].1 as int));
        spans_are_maximal_runs(
            Seq::new(
                gray.width as nat,
                |x: int|
                    ink_in_rows(gray@, *model, control.top as int, control.bottom as int, x),
            ),
        );
    }
    if n < 2 {
        return Err(GeometryError::MissingBars);
    }
    let first = clusters[0];
    let last = clusters[n - 1];
    assert(c.last() == c[n - 1]);
    assert(c[0].0 <= c[0].1 && c[n - 1].0 <= c[n - 1].1);
    let first2 = first.0 as u64 + first.1 as u64;
    let last2 = last.0 as u64 + last.1 as u64;
    if last2 < first2 || last2 - first2 < 48 {
        return Err(GeometryError::ImplausiblePitch);
    }
    let origin_x = 6 * first2;
    let pitch = last2 - first2;
    if bar_too_wide(first, pitch) || bar_too_wide(last, pitch) {
        return Err(GeometryError::BarsTooWide);
    }
    if n == 4 {
        if sentinel_off(clusters[1], origin_x, pitch, 2) || sentinel_off(
            clusters[2],
            origin_x,
            pitch,
            4,
        ) {
            return Err(GeometryError::SentinelSpacingMismatch);
        }
    }
    Ok(Calibration { origin_x, pitch, unit: 12 })
}

// ---------------------------------------------------------------------------
// Cell boxes
// ---------------------------------------------------------------------------
/// `num / den` pixels rounded to the nearest whole pixel, halves upward, and
/// clamped to the range of a pixel coordinate.
pub open spec fn nearest_px(num: int, den: int) -> int {
    if num <= 0 {
        0
    } else if (2 * num + den) / (2 * den) > u32::MAX {
        u32::MAX as int
    } else {
        (2 * num + den) / (2 * den)
    }
}

/// Rounds the fraction `num / den` to a pixel coordinate.
pub fn round_px(num: u64, den: u64) -> (px: u32)
    requires
        0 < den,
        2 * num + den <= u64::MAX,
        2 * den <= u64::MAX,
    ensures
        px == nearest_px(num as int, den as int),
{
    let q = (2 * num + den) / (2 * den);
    proof {
        if num == 0 {
            assert((2 * num + den) / (2 * den) == 0) by (nonlinear_arith)
                requires
                    num == 0,
                    den > 0,
            ;
        }
    }
    if q > 0xffff_ffff {
        0xffff_ffff
    } else {
        q as u32
    }
}

/// Rounding keeps the order of fractions with one denominator.
pub proof fn lemma_nearest_monotone(a: int, b: int, den: int)
    requires
        0 < den,
        a <= b,
    ensures
        nearest_px(a, den) <= nearest_px(b, den),
{
    if 0 < a {
        assert((2 * a + den) / (2 * den) <= (2 * b + den) / (2 * den)) by (nonlinear_arith)
            requires
                0 < den,
                0 < a <= b,
        ;
    }
    if 0 < b {
        assert(0 <= (2 * b + den) / (2 * den)) by (nonlinear_arith)
            requires
                0 < den,
                0 < b,
        ;
    }
}

/// Fractions one pixel or more apart round to different pixels.
pub proof fn lemma_nearest_apart(a: int, b: int, den: int)
    requires
        0 < den,
        0 <= a,
        a + den <= b,
        b <= u32::MAX * den,
    ensures
        nearest_px(a, den) + 1 <= nearest_px(b, den),
{
    assert((2 * b + den) / (2 * den) <= u32::MAX && (2 * b + den) / (2 * den) >= 1) by (
    nonlinear_arith)
        requires
            0 < den <= b <= u32::MAX * den,
    ;
    if 0 < a {
        assert((2 * a + den) / (2 * den) + 1 <= (2 * b + den) / (2 * den)) by (nonlinear_arith)
            requires
                0 < den,
                0 < a,
                a + den <= b,
        ;
    }
}

/// An axis-aligned pixel rectangle produced by one final rounding pass, both
/// ends inclusive.
#[derive(Clone, Copy, Debug, PartialEq, Eq, Structural)]
pub struct CellBox {
    /// First column.
    pub left: u32,
    /// First row.
    pub top: u32,
    /// Last column.
    pub right: u32,
    /// Last row.
    pub bottom: u32,
}

/// Number of positions from `lo` to `hi`, at least one.
pub open spec fn extent(lo: int, hi: int) -> int {
    if hi > lo {
        hi - lo + 1
    } else {
        1
    }
}

impl CellBox {
    /// Pixel area of the box.
    pub fn area(&self) -> (px: u64)
        requires
            self.right - self.left < u32::MAX,
            self.bottom - self.top < u32::MAX,
        ensures
            px == extent(self.left as int, self.right as int) * extent(
                self.top as int,
                self.bottom as int,
            ),
    {
        let w: u64 = if self.right > self.left {
            (self.right - self.left) as u64 + 1
        } else {
            1
        };
        let h: u64 = if self.bottom > self.top {
            (self.bottom - self.top) as u64 + 1
        } else {
            1
        };
        assert(w * h <= 0xffff_ffff * 0xffff_ffff) by (nonlinear_arith)
            requires
                w <= 0xffff_ffff,
                h <= 0xffff_ffff,
        ;
        w * h
    }
}

impl Calibration {
    /// A denominator, and values small enough to compute with.
    pub open spec fn wf(self) -> bool {
        &&& 0 < self.unit < 0x100_0000_0000
        &&& self.origin_x < 0x100_0000_0000
        &&& self.pitch < 0x100_0000_0000
    }

    /// Center of grid column `col0`, in units of `1 / unit` pixels.
    pub open spec fn center(self, col0: int) -> int {
        self.origin_x + col0 * self.pitch
    }

    /// The position `center(col0) + twentieths / 20 * pitch`, in units of
    /// `1 / (20 * unit)` pixels.
    pub open spec fn place(self, col0: int, twentieths: int) -> int {
        20 * self.center(col0) + twentieths * self.pitch
    }

    /// The pixel nearest to that position.
    pub open spec fn pixel(self, col0: int, twentieths: int) -> int {
        nearest_px(self.place(col0, twentieths), 20 * self.unit)
    }

    /// Center of grid column `col0` (0-based offset from the boundary bar), in
    /// units of `1 / unit` pixels: never truncated.
    pub fn cell_center(&self, col0: u16) -> (at: u64)
        requires
            self.wf(),
        ensures
            at == self.center(col0 as int),
            at < 0x100_0000_0000_0000,
    {
        assert(0 <= col0 * self.pitch <= 0xffff * 0xff_ffff_ffff) by (nonlinear_arith)
            requires
                col0 <= 0xffff,
                self.pitch <= 0xff_ffff_ffff,
        ;
        self.origin_x + col0 as u64 * self.pitch
    }

    fn place_above(&self, col0: u16, twentieths: u64) -> (at: u64)
        requires
            self.wf(),
            twentieths <= 20,
        ensures
            at == self.place(col0 as int, twentieths as int),
            at < 0x2000_0000_0000_0000,
    {
        assert(0 <= twentieths * self.pitch <= 20 * self.pitch) by (nonlinear_arith)
            requires
                twentieths <= 20,
        ;
        20 * self.cell_center(col0) + twentieths * self.pitch
    }

    /// As `place` below the center, and 0 for what lies left of the image.
    fn place_below(&self, col0: u16, twentieths: u64) -> (at: u64)
        requires
            self.wf(),
            twentieths <= 20,
        ensures
            at == (if self.place(col0 as int, -twentieths) < 0 {
                0
            } else {
                self.place(col0 as int, -twentieths)
            }),
            at < 0x2000_0000_0000_0000,
    {
        assert(0 <= twentieths * self.pitch <= 20 * self.pitch) by (nonlinear_arith)
            requires
                twentieths <= 20,
        ;
        assert((-twentieths) * self.pitch == -(twentieths * self.pitch)) by (nonlinear_arith);
        let c = 20 * self.cell_center(col0);
        let d = twentieths * self.pitch;
        if c < d {
            0
        } else {
            c - d
        }
    }

    fn pixel_above(&self, col0: u16, twentieths: u64) -> (px: u32)
        requires
            self.wf(),
            twentieths <= 20,
        ensures
            px == self.pixel(col0 as int, twentieths as int),
    {
        round_px(self.place_above(col0, twentieths), 20 * self.unit)
    }

    fn pixel_below(&self, col0: u16, twentieths: u64) -> (px: u32)
        requires
            self.wf(),
            twentieths <= 20,
        ensures
            px == self.pixel(col0 as int, -twentieths),
    {
        round_px(self.place_below(col0, twentieths), 20 * self.unit)
    }

    /// The central crop of cell `col0`, thirty-five hundredths of a pitch to
    /// either side of its center, vertically spanning `band`.
    ///
    /// The central-crop margin keeps antialiased fringes of *neighbouring*
    /// cells out of visibility statistics while leaving solid glyphs fully
    /// covered.
    pub fn cell_box(&self, col0: u16, band: &Band) -> (b: CellBox)
        requires
            self.wf(),
        ensures
            b == self.crop(col0 as int, *band),
    {
        CellBox {
            left: self.pixel_below(col0, 7),
            top: band.top,
            right: self.pixel_above(col0, 7),
            bottom: band.bottom,
        }
    }

    /// What [`Calibration::cell_box`] returns.
    pub open spec fn crop(self, col0: int, band: Band) -> CellBox {
        CellBox {
            left: self.pixel(col0, -7) as u32,
            top: band.top,
            right: self.pixel(col0, 7) as u32,
            bottom: band.bottom,
        }
    }

    /// The full single-cell extent of `col0`, for *display* crops.
    ///
    /// No safety insets: capture rows sandwich the glyph between side-bearing
    /// ASCII sentinels (`| A<glyph>B |`), so only the glyph's own ink reaches
    /// these bounds, and full-width primitives span them exactly. Verification
    /// keeps its narrower assertion window ([`Calibration::cell_box`]).
    pub fn cell_box_full(&self, col0: u16, band: &Band) -> (b: CellBox)
        requires
            self.wf(),
            self.pixel(col0 as int, 10) >= 1,
        ensures
            b == self.cell(col0 as int, *band),
    {
        CellBox {
            left: self.pixel_below(col0, 10),
            top: band.top,
            right: self.pixel_above(col0, 10) - 1,
            bottom: band.bottom,
        }
    }

    /// What [`Calibration::cell_box_full`] returns.
    pub open spec fn cell(self, col0: int, band: Band) -> CellBox {
        CellBox {
            left: self.pixel(col0, -10) as u32,
            top: band.top,
            right: (self.pixel(col0, 10) - 1) as u32,
            bottom: band.bottom,
        }
    }

    /// The gutter between the icon cell's right **boundary** and sentinel B's
    /// central crop, in units of `1 / (20 * unit)` pixels: any ink here means
    /// the candidate rendered past its own cell. The icon's full cell width is
    /// legitimate ink territory: full-width primitives and wide letters fill it
    /// completely.
    pub fn gutter_span(&self) -> (g: (u64, u64))
        requires
            self.wf(),
        ensures
            g.0 == self.place(3, 10),
            g.1 == self.place(4, -7),
            g.0 < 0x2000_0000_0000_0000,
            g.1 < 0x2000_0000_0000_0000,
    {
        assert(self.place(4, -7) == 20 * self.origin_x + 73 * self.pitch) by {
            assert(4 * self.pitch * 20 == 80 * self.pitch);
        }
        (self.place_above(3, 10), self.place_below(4, 7))
    }

    /// Mirror of [`Calibration::gutter_span`] on the sentinel-A side: from A's
    /// central-crop right edge to the icon cell's **left** boundary. Overflow
    /// toward A is just as much a spatial-contract violation as overflow toward
    /// B.
    pub fn left_gutter_span(&self) -> (g: (u64, u64))
        requires
            self.wf(),
        ensures
            g.0 == self.place(2, 7),
            g.1 == self.place(3, -10),
            g.0 < 0x2000_0000_0000_0000,
            g.1 < 0x2000_0000_0000_0000,
    {
        assert(self.place(3, -10) == 20 * self.origin_x + 50 * self.pitch);
        (self.place_above(2, 7), self.place_below(3, 10))
    }
}

/// The calibration of a control row, as a value.
pub open spec fn control_calibration(g: Gray, m: FgModel, control: Band) -> Result<
    Calibration,
    GeometryError,
> {
    match calibration_of(band_clusters(g, m, control)) {
        Ok(v) => Ok(Calibration { origin_x: v.0 as u64, pitch: v.1 as u64, unit: 12 }),
        Err(e) => Err(e),
    }
}

// ---------------------------------------------------------------------------
// Laws of the grid
// ---------------------------------------------------------------------------
/// A calibrated line ends inside the image: no cell up to the second boundary
/// bar reaches past the last column.
pub proof fn calibrated_cells_lie_inside(
    g: Gray,
    m: FgModel,
    control: Band,
    cal: Calibration,
    col: int,
    twentieths: int,
)
    requires
        control_calibration(g, m, control) == Ok::<Calibration, GeometryError>(cal),
        0 <= col,
        0 <= 20 * col + twentieths <= 120,
    ensures
        cal.wf(),
        cal.unit == 12,
        cal.pitch >= 4 * cal.unit,
        0 <= cal.place(col, twentieths) <= 20 * cal.unit * (g.width - 1),
        0 <= cal.pixel(col, twentieths) <= g.width - 1,
{
    let c = band_clusters(g, m, control);
    spans_are_maximal_runs(
        Seq::new(
            g.width as nat,
            |x: int| ink_in_rows(g, m, control.top as int, control.bottom as int, x),
        ),
    );
    let n = c.len() as int;
    assert(c.last() == c[n - 1]);
    assert(c[0].0 >= 0 && c[0].1 <= g.width - 1 && c[0].0 <= c[0].1);
    assert(c[n - 1].0 <= c[n - 1].1 && c[n - 1].1 <= g.width - 1);
    let p = cal.pitch as int;
    let o = cal.origin_x as int;
    let t = 20 * col + twentieths;
    assert(cal.place(col, twentieths) == 20 * o + t * p) by {
        assert(20 * (col * p) + twentieths * p == (20 * col + twentieths) * p) by (nonlinear_arith);
    }
    assert(0 <= t * p <= 120 * p) by (nonlinear_arith)
        requires
            0 <= t <= 120,
            0 <= p,
    ;
    assert(cal.place(col, twentieths) <= 240 * (g.width - 1));
}

/// The centers of columns 0 and 6 are the centers of the two boundary bars:
/// calibration reproduces its own anchors exactly.
pub proof fn calibration_hits_its_anchors(c: Seq<(int, int)>, cal: Calibration)
    requires
        calibration_of(c) == Ok::<(int, int), GeometryError>(
            (cal.origin_x as int, cal.pitch as int),
        ),
        cal.unit == 12,
    ensures
        2 * cal.center(0) == cal.unit * twice_center(c[0]),
        2 * cal.center(6) == cal.unit * twice_center(c.last()),
        cal.pitch >= 4 * cal.unit,
{
}

/// Full cells tile the line: each ends exactly where the next one begins, no
/// matter how far along the line they sit.
pub proof fn full_cells_tile_the_line(cal: Calibration, col: int, band: Band)
    requires
        cal.wf(),
        0 <= col,
        cal.pixel(col, 10) >= 1,
    ensures
        cal.cell(col, band).right + 1 == cal.cell(col + 1, band).left,
{
    assert(cal.place(col + 1, -10) == cal.place(col, 10)) by {
        assert((col + 1) * cal.pitch == col * cal.pitch + cal.pitch) by (nonlinear_arith);
    }
}

/// The assertion window of a cell never reaches past the center of the next
/// cell, no matter how far along the line they sit.
pub proof fn crops_never_pass_the_next_center(cal: Calibration, col: int, band: Band)
    requires
        cal.wf(),
        0 <= col,
    ensures
        cal.crop(col, band).right <= cal.pixel(col + 1, 0),
        cal.pixel(col, 0) <= cal.crop(col + 1, band).left,
{
    assert((col + 1) * cal.pitch == col * cal.pitch + cal.pitch) by (nonlinear_arith);
    lemma_nearest_monotone(cal.place(col, 7), cal.place(col + 1, 0), 20 * cal.unit as int);
    lemma_nearest_monotone(cal.place(col, 0), cal.place(col + 1, -7), 20 * cal.unit as int);
}

/// The full cell contains the assertion window, provided that the margin
/// between them, fifteen hundredths of a pitch, is at least one pixel and the
/// cell lies in the range of pixel coordinates.
pub proof fn full_cell_contains_crop(cal: Calibration, col: int, band: Band)
    requires
        cal.wf(),
        0 <= col,
        3 * cal.pitch >= 20 * cal.unit,
        cal.place(col, 10) <= u32::MAX * (20 * cal.unit),
    ensures
        cal.cell(col, band).left <= cal.crop(col, band).left,
        cal.crop(col, band).right <= cal.cell(col, band).right,
{
    let den = 20 * cal.unit as int;
    assert(0 <= col * cal.pitch) by (nonlinear_arith)
        requires
            0 <= col,
    ;
    lemma_nearest_monotone(cal.place(col, -10), cal.place(col, -7), den);
    lemma_nearest_apart(cal.place(col, 7), cal.place(col, 10), den);
}

/// Chrome suppression is complete: nothing of what it leaves counts as chrome,
/// so that doing it again changes nothing.
pub proof fn cleaning_twice_changes_nothing(g: Gray, m: FgModel)
    ensures
        cleaned(cleaned(g, m), m) == cleaned(g, m),
{
    let c = cleaned(g, m);
    lemma_gray_of(g.width, g.height, without_chrome(g, m));
    lemma_gray_of(g.width, g.height, without_chrome(c, m));
    assert forall|x: int, y: int| 0 <= x < g.width && 0 <= y < g.height implies #[trigger] cleaned(
        c,
        m,
    ).at(x, y) == c.at(x, y) by {
        if chrome_column(c, m, x) {
            let len = structural_limit(g.height as int) + 1;
            let f = column_ink(c, m, x);
            let i = choose|i: int| run_at(f, i, len);
            assert forall|j: int| i <= j < i + len implies column_ink(g, m, x)[j]
                && !chrome_column(g, m, x) by {
                assert(f[j]);
                assert(c.at(x, j) == without_chrome(g, m)(x, j));
            }
            assert(f[i]);
            assert(column_ink(g, m, x)[i]);
            assert(run_at(column_ink(g, m, x), i, len));
            assert(false);
        }
        if chrome_row(c, m, y) {
            let len = structural_limit(g.width as int) + 1;
            let f = row_ink(c, m, y);
            let i = choose|i: int| run_at(f, i, len);
            assert forall|j: int| i <= j < i + len implies row_ink(g, m, y)[j] && !chrome_row(
                g,
                m,
                y,
            ) by {
                assert(f[j]);
                assert(c.at(j, y) == without_chrome(g, m)(j, y));
            }
            assert(f[i]);
            assert(row_ink(g, m, y)[i]);
            assert(run_at(row_ink(g, m, y), i, len));
            assert(false);
        }
        assert(cleaned(c, m).at(x, y) == without_chrome(c, m)(x, y));
    }
    lemma_same_gray(cleaned(c, m), c);
}

// ---------------------------------------------------------------------------
// What the measurements mean
// ---------------------------------------------------------------------------
/// The positions at which `s` holds `v`.
pub open spec fn positions_of(s: Seq<u8>, v: int) -> Set<int> {
    Set::new(|i: int| 0 <= i < s.len() && s[i] == v)
}

/// A value occurs as often as there are positions with it.
pub proof fn occurrences_count_positions(s: Seq<u8>, v: int)
    ensures
        positions_of(s, v).finite(),
        occurrences(s, v) == positions_of(s, v).len(),
    decreases s.len(),
{
    if s.len() == 0 {
        assert(positions_of(s, v) =~= Set::empty());
    } else {
        let t = s.drop_last();
        occurrences_count_positions(t, v);
        if s.last() == v {
            assert(positions_of(s, v) =~= positions_of(t, v).insert(s.len() - 1));
        } else {
            assert(positions_of(s, v) =~= positions_of(t, v));
        }
    }
}

/// The background is a luminance that no other one occurs more often than, and
/// every brighter one occurs less often.
pub proof fn the_background_dominates(g: Gray, v: int)
    requires
        0 <= v < 256,
    ensures
        positions_of(g.data, v).finite(),
        positions_of(g.data, v).len() <= positions_of(g.data, background(g.data) as int).len(),
        v > background(g.data) ==> positions_of(g.data, v).len() < positions_of(
            g.data,
            background(g.data) as int,
        ).len(),
{
    background_is_the_mode(g.data);
    occurrences_count_positions(g.data, v);
    occurrences_count_positions(g.data, background(g.data) as int);
    assert(occurrences(g.data, v) <= occurrences(g.data, background(g.data) as int));
}

/// The pixel's luminance is further from the background than the delta.
pub open spec fn stands_out(g: Gray, m: FgModel, x: int, y: int) -> bool {
    let v = g.data[y * g.width + x];
    v > m.bg + m.delta || v + m.delta < m.bg
}

/// `n` pixels of column `x` from row `y0` on stand out.
pub open spec fn column_run(g: Gray, m: FgModel, x: int, y0: int, n: int) -> bool {
    &&& 0 <= y0
    &&& y0 + n <= g.height
    &&& forall|y: int| y0 <= y < y0 + n ==> #[trigger] stands_out(g, m, x, y)
}

/// `n` pixels of row `y` from column `x0` on stand out.
pub open spec fn row_run(g: Gray, m: FgModel, y: int, x0: int, n: int) -> bool {
    &&& 0 <= x0
    &&& x0 + n <= g.width
    &&& forall|x: int| x0 <= x < x0 + n ==> #[trigger] stands_out(g, m, x, y)
}

proof fn lemma_stands_out(g: Gray, m: FgModel, x: int, y: int)
    ensures
        fg(g, m, x, y) == stands_out(g, m, x, y),
{
}

proof fn lemma_chrome_column(g: Gray, m: FgModel, x: int)
    ensures
        chrome_column(g, m, x) <==> exists|y0: int, n: int|
            10 * n > 3 * g.height && #[trigger] column_run(g, m, x, y0, n),
{
    let f = column_ink(g, m, x);
    let len = structural_limit(g.height as int) + 1;
    if chrome_column(g, m, x) {
        let i = choose|i: int| run_at(f, i, len);
        assert forall|y: int| i <= y < i + len implies #[trigger] stands_out(g, m, x, y) by {
            assert(f[y]);
        }
        assert(column_run(g, m, x, i, len));
        assert(10 * len > 3 * g.height);
    }
    if exists|y0: int, n: int| 10 * n > 3 * g.height && #[trigger] column_run(g, m, x, y0, n) {
        let (y0, n) = choose|y0: int, n: int|
            10 * n > 3 * g.height && #[trigger] column_run(g, m, x, y0, n);
        assert(n >= len);
        assert forall|j: int| y0 <= j < y0 + len implies f[j] by {
            assert(stands_out(g, m, x, j));
        }
        assert(run_at(f, y0, len));
    }
}

proof fn lemma_chrome_row(g: Gray, m: FgModel, y: int)
    ensures
        chrome_row(g, m, y) <==> exists|x0: int, n: int|
            10 * n > 3 * g.width && #[trigger] row_run(g, m, y, x0, n),
{
    let f = row_ink(g, m, y);
    let len = structural_limit(g.width as int) + 1;
    if chrome_row(g, m, y) {
        let i = choose|i: int| run_at(f, i, len);
        assert forall|x: int| i <= x < i + len implies #[trigger] stands_out(g, m, x, y) by {
            assert(f[x]);
        }
        assert(row_run(g, m, y, i, len));
        assert(10 * len > 3 * g.width);
    }
    if exists|x0: int, n: int| 10 * n > 3 * g.width && #[trigger] row_run(g, m, y, x0, n) {
        let (x0, n) = choose|x0: int, n: int|
            10 * n > 3 * g.width && #[trigger] row_run(g, m, y, x0, n);
        assert(n >= len);
        assert forall|j: int| x0 <= j < x0 + len implies f[j] by {
            assert(stands_out(g, m, j, y));
        }
        assert(run_at(f, x0, len));
    }
}

/// Suppression blanks exactly the columns and rows that hold an unbroken run of
/// ink over more than three tenths of their length. Every other pixel stays.
pub proof fn chrome_is_what_runs_over_three_tenths(g: Gray, m: FgModel, x: int, y: int)
    requires
        0 <= x < g.width,
        0 <= y < g.height,
    ensures
        ({
            let in_column = exists|y0: int, n: int|
                10 * n > 3 * g.height && #[trigger] column_run(g, m, x, y0, n);
            let in_row = exists|x0: int, n: int|
                10 * n > 3 * g.width && #[trigger] row_run(g, m, y, x0, n);
            &&& cleaned(g, m).width == g.width
            &&& cleaned(g, m).height == g.height
            &&& in_column || in_row ==> cleaned(g, m).data[y * g.width + x] == m.bg
            &&& !in_column && !in_row ==> cleaned(g, m).data[y * g.width + x] == g.data[y * g.width
                + x]
        }),
{
    lemma_chrome_column(g, m, x);
    lemma_chrome_row(g, m, y);
    lemma_gray_of(g.width, g.height, without_chrome(g, m));
    assert(cleaned(g, m).at(x, y) == without_chrome(g, m)(x, y));
}

/// The rows at which a vertical ink run of at least two pixels begins in column
/// `x`.
pub open spec fn run_tops(g: Gray, m: FgModel, x: int) -> Set<int> {
    Set::new(
        |y: int|
            {
                &&& 0 <= y < g.height - 1
                &&& stands_out(g, m, x, y)
                &&& stands_out(g, m, x, y + 1)
                &&& y == 0 || !stands_out(g, m, x, y - 1)
            },
    )
}

/// The starts of the spans that cover two positions or more.
spec fn long_starts(s: Seq<(int, int)>) -> Set<int> {
    Set::new(|y: int| exists|i: int| 0 <= i < s.len() && (#[trigger] s[i]).0 == y && s[i].1 > y)
}

proof fn lemma_count_long(s: Seq<(int, int)>)
    requires
        forall|i: int, j: int| 0 <= i < j < s.len() ==> (#[trigger] s[i]).0 < (#[trigger] s[j]).0,
    ensures
        long_starts(s).finite(),
        count_long(s) == long_starts(s).len(),
    decreases s.len(),
{
    if s.len() == 0 {
        assert(long_starts(s) =~= Set::empty());
    } else {
        let t = s.drop_last();
        let n = s.len() - 1;
        assert forall|i: int, j: int| 0 <= i < j < t.len() implies (#[trigger] t[i]).0 < (
        #[trigger] t[j]).0 by {
            assert(s[i].0 < s[j].0);
        }
        lemma_count_long(t);
        if s[n].1 > s[n].0 {
            assert(!long_starts(t).contains(s[n].0)) by {
                if long_starts(t).contains(s[n].0) {
                    let i = choose|i: int|
                        0 <= i < t.len() && (#[trigger] t[i]).0 == s[n].0 && t[i].1 > s[n].0;
                    assert(s[i].0 < s[n].0);
                }
            }
            assert forall|y: int| long_starts(s).contains(y) implies long_starts(t).insert(
                s[n].0,
            ).contains(y) by {
                let i = choose|i: int| 0 <= i < s.len() && (#[trigger] s[i]).0 == y && s[i].1 > y;
                if i < n {
                    assert(t[i].0 == y && t[i].1 > y);
                }
            }
            assert forall|y: int| long_starts(t).insert(s[n].0).contains(y) implies long_starts(
                s,
            ).contains(y) by {
                if y != s[n].0 {
                    let i = choose|i: int|
                        0 <= i < t.len() && (#[trigger] t[i]).0 == y && t[i].1 > y;
                    assert(s[i].0 == y && s[i].1 > y);
                }
            }
            assert(long_starts(s) =~= long_starts(t).insert(s[n].0));
        } else {
            assert forall|y: int| long_starts(s).contains(y) implies long_starts(t).contains(y) by {
                let i = choose|i: int| 0 <= i < s.len() && (#[trigger] s[i]).0 == y && s[i].1 > y;
                assert(t[i].0 == y && t[i].1 > y);
            }
            assert forall|y: int| long_starts(t).contains(y) implies long_starts(s).contains(y) by {
                let i = choose|i: int| 0 <= i < t.len() && (#[trigger] t[i]).0 == y && t[i].1 > y;
                assert(s[i].0 == y && s[i].1 > y);
            }
            assert(long_starts(s) =~= long_starts(t));
        }
    }
}

/// A column's run count is the number of rows at which a run of two or more ink
/// pixels begins.
proof fn lemma_run_count(g: Gray, m: FgModel, x: int)
    ensures
        run_tops(g, m, x).finite(),
        run_count(g, m, x) == run_tops(g, m, x).len(),
{
    let f = column_ink(g, m, x);
    let s = spans(f);
    spans_are_maximal_runs(f);
    lemma_count_long(s);
    assert forall|y: int| run_tops(g, m, x).contains(y) implies long_starts(s).contains(y) by {
        assert(f[y] && f[y + 1]);
        let i = choose|i: int| 0 <= i < s.len() && (#[trigger] s[i]).0 <= y <= s[i].1;
        if s[i].0 < y {
            assert(f[y - 1]);
        }
        assert(s[i].0 == y);
        if s[i].1 == y {
            assert(!f[s[i].1 + 1]);
        }
    }
    assert forall|y: int| long_starts(s).contains(y) implies run_tops(g, m, x).contains(y) by {
        let i = choose|i: int| 0 <= i < s.len() && (#[trigger] s[i]).0 == y && s[i].1 > y;
        assert(f[y] && f[y + 1]);
        if y > 0 {
            assert(!f[y - 1]);
        }
    }
    assert(run_tops(g, m, x) =~= long_starts(s));
}

/// Column `x0` is the first to begin at least three quarters of the expected runs,
/// and the strip goes on to `x1`: over columns that begin at least a quarter of
/// them, and no more than five. One run is always asked for.
pub open spec fn is_bar_strip(g: Gray, m: FgModel, expected: int, x0: int, x1: int) -> bool {
    &&& 0 <= x0 <= x1 < g.width
    &&& x1 <= x0 + 5
    &&& run_tops(g, m, x0).len() >= 1
    &&& run_tops(g, m, x0).len() >= expected * 3 / 4
    &&& forall|x: int|
        0 <= x < x0 ==> (#[trigger] run_tops(g, m, x)).len() < 1 || run_tops(g, m, x).len()
            < expected * 3 / 4
    &&& forall|x: int|
        x0 < x <= x1 ==> (#[trigger] run_tops(g, m, x)).len() >= 1 && run_tops(g, m, x).len()
            >= expected / 4
    &&& x1 == x0 + 5 || x1 == g.width - 1 || run_tops(g, m, x1 + 1).len() < 1 || run_tops(
        g,
        m,
        x1 + 1,
    ).len() < expected / 4
}

/// Some pixel of row `y` in the strip stands out.
pub open spec fn row_in_strip(g: Gray, m: FgModel, x0: int, x1: int, y: int) -> bool {
    exists|x: int| x0 <= x <= x1 && #[trigger] stands_out(g, m, x, y)
}

proof fn lemma_bar_start(g: Gray, m: FgModel, high: nat, x: int)
    requires
        0 <= x <= g.width,
    ensures
        ({
            let s = bar_start(g, m, high, x);
            &&& x <= s <= g.width
            &&& s < g.width ==> run_count(g, m, s) >= high
            &&& forall|k: int| x <= k < s ==> #[trigger] run_count(g, m, k) < high
        }),
    decreases g.width - x,
{
    if x < g.width && run_count(g, m, x) < high {
        lemma_bar_start(g, m, high, x + 1);
        let s = bar_start(g, m, high, x);
        assert forall|k: int| x <= k < s implies #[trigger] run_count(g, m, k) < high by {
            if k > x {
                assert(run_count(g, m, k) < high);
            }
        }
    }
}

proof fn lemma_bar_end(g: Gray, m: FgModel, low: nat, x0: int, x1: int)
    requires
        0 <= x0 <= x1 < g.width,
        x1 <= x0 + 5,
    ensures
        ({
            let e = bar_end(g, m, low, x0, x1);
            &&& x1 <= e < g.width
            &&& e <= x0 + 5
            &&& forall|k: int| x1 < k <= e ==> #[trigger] run_count(g, m, k) >= low
            &&& e == x0 + 5 || e == g.width - 1 || run_count(g, m, e + 1) < low
        }),
    decreases g.width - x1,
{
    if x1 + 1 < g.width && run_count(g, m, x1 + 1) >= low && x1 - x0 < 5 {
        lemma_bar_end(g, m, low, x0, x1 + 1);
        let e = bar_end(g, m, low, x0, x1);
        assert forall|k: int| x1 < k <= e implies #[trigger] run_count(g, m, k) >= low by {
            if k > x1 + 1 {
                assert(run_count(g, m, k) >= low);
            }
        }
    }
}

proof fn lemma_bar_strip(g: Gray, m: FgModel, expected: usize)
    requires
        0 < expected <= u32::MAX,
    ensures
        ({
            let x0 = bar_start(g, m, bar_high(expected) as nat, 0);
            let x1 = bar_end(g, m, bar_low(expected) as nat, x0, x0);
            &&& x0 < g.width ==> is_bar_strip(g, m, expected as int, x0, x1)
            &&& x0 >= g.width ==> forall|x: int|
                0 <= x < g.width ==> (#[trigger] run_tops(g, m, x)).len() < 1 || run_tops(
                    g,
                    m,
                    x,
                ).len() < expected * 3 / 4
        }),
{
    let (high, low) = (bar_high(expected) as nat, bar_low(expected) as nat);
    let x0 = bar_start(g, m, high, 0);
    lemma_bar_start(g, m, high, 0);
    assert forall|x: int| true implies #[trigger] run_tops(g, m, x).len() == run_count(g, m, x) by {
        lemma_run_count(g, m, x);
    }
    assert forall|x: int| 0 <= x < x0 implies (#[trigger] run_tops(g, m, x)).len() < 1 || run_tops(
        g,
        m,
        x,
    ).len() < expected * 3 / 4 by {
        assert(run_count(g, m, x) < high);
    }
    if x0 < g.width {
        let x1 = bar_end(g, m, low, x0, x0);
        lemma_bar_end(g, m, low, x0, x0);
        assert forall|x: int| x0 < x <= x1 implies (#[trigger] run_tops(g, m, x)).len() >= 1
            && run_tops(g, m, x).len() >= expected / 4 by {
            assert(run_count(g, m, x) >= low);
        }
    }
}

/// The bands of a page are the unbroken runs of rows that hold ink in the strip of
/// the boundary bar: they come from top to bottom with a gap between them, hold
/// nothing but such rows, and leave none out. Without a bar there is no band.
#[verifier::rlimit(50)]
pub proof fn bands_are_the_inked_rows_of_the_bar(g: Gray, m: FgModel, expected: usize)
    requires
        0 < expected <= u32::MAX,
    ensures
        ({
            let b = found_bands(g, m, expected);
            ||| b.len() == 0 && forall|x: int|
                0 <= x < g.width ==> (#[trigger] run_tops(g, m, x)).len() < 1 || run_tops(
                    g,
                    m,
                    x,
                ).len() < expected * 3 / 4
            ||| exists|x0: int, x1: int| #[trigger] is_bar_strip(g, m, expected as int, x0, x1)
                && are_inked_rows(g, m, x0, x1, b)
        }),
        found_bands(g, m, 0).len() == 0,
{
    let b = found_bands(g, m, expected);
    let x0 = bar_start(g, m, bar_high(expected) as nat, 0);
    lemma_bar_strip(g, m, expected);
    lemma_bar_start(g, m, bar_high(expected) as nat, 0);
    if x0 < g.width {
        let x1 = bar_end(g, m, bar_low(expected) as nat, x0, x0);
        let f = strip_ink(g, m, x0, x1);
        let s = spans(f);
        spans_are_maximal_runs(f);
        assert forall|y: int| 0 <= y < g.height implies f[y] == #[trigger] row_in_strip(
            g,
            m,
            x0,
            x1,
            y,
        ) by {
            if f[y] {
                let x = choose|x: int| x0 <= x <= x1 && fg(g, m, x, y);
                assert(stands_out(g, m, x, y));
            }
            if row_in_strip(g, m, x0, x1, y) {
                let x = choose|x: int| x0 <= x <= x1 && #[trigger] stands_out(g, m, x, y);
                assert(fg(g, m, x, y));
            }
        }
        assert(b.len() == s.len());
        assert forall|i: int| 0 <= i < b.len() implies (#[trigger] b[i]).top == s[i].0
            && b[i].bottom == s[i].1 by {
            assert(0 <= s[i].0 <= s[i].1 < f.len());
        }
        assert forall|i: int| 0 <= i < b.len() implies is_inked_run(
            g,
            m,
            x0,
            x1,
            #[trigger] b[i],
        ) by {
            assert(b[i].top == s[i].0);
            let (t, e) = (s[i].0, s[i].1);
            assert forall|y: int| t <= y <= e implies #[trigger] row_in_strip(
                g,
                m,
                x0,
                x1,
                y,
            ) by {
                assert(f[y]);
            }
            if t > 0 {
                assert(!f[t - 1]);
                assert(!row_in_strip(g, m, x0, x1, t - 1));
            }
            if e < g.height - 1 {
                assert(!f[e + 1]);
                assert(!row_in_strip(g, m, x0, x1, e + 1));
            }
        }
        assert forall|y: int| 0 <= y < g.height && #[trigger] row_in_strip(
            g,
            m,
            x0,
            x1,
            y,
        ) implies exists|i: int|
            0 <= i < b.len() && (#[trigger] b[i]).top <= y <= b[i].bottom by {
            assert(f[y]);
            let i = choose|i: int| 0 <= i < s.len() && (#[trigger] s[i]).0 <= y <= s[i].1;
            assert(b[i].top <= y <= b[i].bottom);
        }
        assert forall|i: int, j: int| 0 <= i < j < b.len() implies (#[trigger] b[i]).bottom + 1 < (
        #[trigger] b[j]).top by {
            assert(s[i].1 + 1 < s[j].0);
        }
        assert(are_inked_rows(g, m, x0, x1, b));
    }
}

/// The band is a run of rows with ink in the strip that goes on neither above nor
/// below.
pub open spec fn is_inked_run(g: Gray, m: FgModel, x0: int, x1: int, b: Band) -> bool {
    &&& b.top <= b.bottom < g.height
    &&& forall|y: int| b.top <= y <= b.bottom ==> #[trigger] row_in_strip(g, m, x0, x1, y)
    &&& b.top == 0 || !row_in_strip(g, m, x0, x1, b.top - 1)
    &&& b.bottom == g.height - 1 || !row_in_strip(g, m, x0, x1, b.bottom + 1)
}

/// The bands are all the runs of rows with ink in the strip, from top to bottom.
pub open spec fn are_inked_rows(g: Gray, m: FgModel, x0: int, x1: int, b: Seq<Band>) -> bool {
    &&& forall|i: int| 0 <= i < b.len() ==> is_inked_run(g, m, x0, x1, #[trigger] b[i])
    &&& forall|i: int, j: int|
        0 <= i < j < b.len() ==> (#[trigger] b[i]).bottom + 1 < (#[trigger] b[j]).top
    &&& forall|y: int|
        0 <= y < g.height && #[trigger] row_in_strip(g, m, x0, x1, y) ==> exists|i: int|
            0 <= i < b.len() && (#[trigger] b[i]).top <= y <= b[i].bottom
}

/// The distances between the tops of the `n + 1` bands from `s` on.
pub open spec fn pitches(b: Seq<Band>, s: int, n: int) -> Seq<int> {
    Seq::new(n as nat, |k: int| b[s + k + 1].top - b[s + k].top)
}

/// Sum of the squared differences between `v` and each of the values.
pub open spec fn squares_from(p: Seq<int>, v: int) -> int
    decreases p.len(),
{
    if p.len() == 0 {
        0
    } else {
        squares_from(p.drop_last(), v) + (p.last() - v) * (p.last() - v)
    }
}

/// Sum of the squared differences between each two of the values: how far they
/// are from all being the same.
pub open spec fn unevenness(p: Seq<int>) -> int
    decreases p.len(),
{
    if p.len() == 0 {
        0
    } else {
        unevenness(p.drop_last()) + squares_from(p.drop_last(), p.last())
    }
}

proof fn lemma_squares_from(b: Seq<Band>, s: int, n: nat, v: int)
    ensures
        squares_from(pitches(b, s, n as int), v) == pitch_squares(b, s, n) - 2 * v * (b[s + n].top
            - b[s].top) + n * (v * v),
    decreases n,
{
    let p = pitches(b, s, n as int);
    if n > 0 {
        let k = (n - 1) as nat;
        lemma_squares_from(b, s, k, v);
        assert(p.drop_last() =~= pitches(b, s, k as int));
        let l = line_pitch(b, s + n - 1);
        assert(p.last() == l);
        let d = b[s + k].top - b[s].top;
        assert((l - v) * (l - v) == l * l - 2 * v * l + v * v) by (nonlinear_arith);
        assert(2 * v * (d + l) == 2 * v * d + 2 * v * l) by (nonlinear_arith);
        assert(n * (v * v) == k * (v * v) + v * v) by (nonlinear_arith)
            requires
                n == k + 1,
        ;
    } else {
        assert(2 * v * 0 == 0) by (nonlinear_arith);
        assert(0 * (v * v) == 0) by (nonlinear_arith);
    }
}

proof fn lemma_unevenness(b: Seq<Band>, s: int, n: nat)
    ensures
        unevenness(pitches(b, s, n as int)) == n * pitch_squares(b, s, n) - (b[s + n].top
            - b[s].top) * (b[s + n].top - b[s].top),
    decreases n,
{
    let p = pitches(b, s, n as int);
    if n > 0 {
        let k = (n - 1) as nat;
        lemma_unevenness(b, s, k);
        assert(p.drop_last() =~= pitches(b, s, k as int));
        let l = line_pitch(b, s + n - 1);
        assert(p.last() == l);
        lemma_squares_from(b, s, k, l);
        let d = b[s + k].top - b[s].top;
        let q = pitch_squares(b, s, k);
        assert((k + 1) * (q + l * l) - (d + l) * (d + l) == k * q - d * d + (q - 2 * l * d + k * (l
            * l))) by (nonlinear_arith);
    }
}

/// Of an over-full detection the grid is the run of `expected` neighboring bands
/// whose line pitches are the most even, the uppermost of such runs. Any other
/// detection is taken whole.
pub proof fn the_grid_is_the_most_even_run(b: Seq<Band>, expected: int)
    requires
        0 <= expected,
    ensures
        expected == 0 || b.len() <= expected ==> grid_bands(b, expected) == b,
        0 < expected < b.len() ==> exists|s: int|
            0 <= s <= b.len() - expected && grid_bands(b, expected) == #[trigger] b.subrange(
                s,
                s + expected,
            ) && (forall|t: int|
                0 <= t <= b.len() - expected ==> unevenness(pitches(b, s, expected - 1))
                    <= unevenness(#[trigger] pitches(b, t, expected - 1))) && (forall|t: int|
                0 <= t < s ==> unevenness(pitches(b, s, expected - 1)) < unevenness(
                    #[trigger] pitches(b, t, expected - 1),
                )),
{
    if 0 < expected < b.len() {
        let s = grid_bands_are_the_tightest_window(b, expected);
        assert forall|t: int| true implies unevenness(#[trigger] pitches(b, t, expected - 1))
            == pitch_spread(b, t, expected) by {
            lemma_unevenness(b, t, (expected - 1) as nat);
        }
        assert(grid_bands(b, expected) == b.subrange(s, s + expected));
    }
}

/// Bands whose line pitches are all the same have no unevenness, and only those:
/// where some run of the expected length is even, the chosen one is.
pub proof fn even_pitches_have_no_unevenness(p: Seq<int>)
    ensures
        unevenness(p) >= 0,
        unevenness(p) == 0 <==> forall|i: int, j: int|
            0 <= i < p.len() && 0 <= j < p.len() ==> #[trigger] p[i] == #[trigger] p[j],
    decreases p.len(),
{
    if p.len() > 0 {
        let q = p.drop_last();
        even_pitches_have_no_unevenness(q);
        lemma_squares_from_zero(q, p.last());
        if unevenness(p) == 0 {
            assert forall|i: int, j: int|
                0 <= i < p.len() && 0 <= j < p.len() implies #[trigger] p[i] == #[trigger] p[j] by {
                if i < q.len() {
                    assert(q[i] == p.last());
                }
                if j < q.len() {
                    assert(q[j] == p.last());
                }
            }
        }
        if forall|i: int, j: int|
            0 <= i < p.len() && 0 <= j < p.len() ==> #[trigger] p[i] == #[trigger] p[j] {
            assert forall|i: int, j: int|
                0 <= i < q.len() && 0 <= j < q.len() implies #[trigger] q[i] == #[trigger] q[j] by {
                assert(p[i] == p[j]);
            }
            assert forall|i: int| 0 <= i < q.len() implies #[trigger] q[i] == p.last() by {
                assert(p[i] == p[p.len() - 1]);
            }
        }
    }
}

proof fn lemma_squares_from_zero(p: Seq<int>, v: int)
    ensures
        squares_from(p, v) >= 0,
        squares_from(p, v) == 0 <==> forall|i: int| 0 <= i < p.len() ==> #[trigger] p[i] == v,
    decreases p.len(),
{
    if p.len() > 0 {
        let q = p.drop_last();
        lemma_squares_from_zero(q, v);
        let d = p.last() - v;
        assert(d * d >= 0 && (d * d == 0 <==> d == 0)) by (nonlinear_arith);
        if squares_from(p, v) == 0 {
            assert forall|i: int| 0 <= i < p.len() implies #[trigger] p[i] == v by {
                if i < q.len() {
                    assert(q[i] == v);
                }
            }
        }
        if forall|i: int| 0 <= i < p.len() ==> #[trigger] p[i] == v {
            assert forall|i: int| 0 <= i < q.len() implies #[trigger] q[i] == v by {
                assert(p[i] == v);
            }
            assert(p[p.len() - 1] == v);
        }
    }
}

/// The ink cluster of a control row: an unbroken run of columns with ink in the
/// band.
pub open spec fn column_in_band(g: Gray, m: FgModel, b: Band, x: int) -> bool {
    exists|y: int| b.top <= y <= b.bottom && #[trigger] stands_out(g, m, x, y)
}

/// The clusters are all the runs of columns with ink in the band, from left to
/// right.
pub open spec fn are_inked_columns(g: Gray, m: FgModel, b: Band, c: Seq<(int, int)>) -> bool {
    &&& forall|i: int|
        0 <= i < c.len() ==> {
            let s = #[trigger] c[i];
            &&& 0 <= s.0 <= s.1 < g.width
            &&& forall|x: int| s.0 <= x <= s.1 ==> #[trigger] column_in_band(g, m, b, x)
            &&& s.0 == 0 || !column_in_band(g, m, b, s.0 - 1)
            &&& s.1 == g.width - 1 || !column_in_band(g, m, b, s.1 + 1)
        }
    &&& forall|i: int, j: int| 0 <= i < j < c.len() ==> (#[trigger] c[i]).1 + 1 < (#[trigger] c[j]).0
    &&& forall|x: int|
        0 <= x < g.width && #[trigger] column_in_band(g, m, b, x) ==> exists|i: int|
            0 <= i < c.len() && (#[trigger] c[i]).0 <= x <= c[i].1
}

proof fn lemma_off_column(c: (int, int), origin: int, pitch: int, col: int, at: int)
    requires
        at == col * pitch,
    ensures
        off_column(c, origin, pitch, col) == (12 * (c.0 + c.1) - 2 * origin - 2 * at > pitch || -(12
            * (c.0 + c.1) - 2 * origin - 2 * at) > pitch),
{
}

/// A control row is read by its ink clusters. The outer two are the boundary bars,
/// six columns apart, so that a twelfth of the distance between twice their
/// centers is the pitch. It takes two clusters, a pitch of four pixels or more,
/// and bars no wider than three quarters of it. Where there are four clusters, the
/// inner two stand no more than half a pitch from columns 2 and 4.
#[verifier::rlimit(50)]
pub proof fn calibration_reads_the_control_row(g: Gray, m: FgModel, control: Band)
    ensures
        ({
            let c = band_clusters(g, m, control);
            let (n, a, z) = (c.len() as int, c[0], c[c.len() - 1]);
            let pitch = (z.0 + z.1) - (a.0 + a.1);
            let wide = 48 * (a.1 - a.0 + 1) > 3 * pitch || 48 * (z.1 - z.0 + 1) > 3 * pitch;
            let d2 = 12 * (c[1].0 + c[1].1) - 12 * (a.0 + a.1) - 4 * pitch;
            let d4 = 12 * (c[2].0 + c[2].1) - 12 * (a.0 + a.1) - 8 * pitch;
            let off = n == 4 && (d2 > pitch || -d2 > pitch || d4 > pitch || -d4 > pitch);
            let r = control_calibration(g, m, control);
            &&& are_inked_columns(g, m, control, c)
            &&& r == Err::<Calibration, GeometryError>(GeometryError::MissingBars) <==> n < 2
            &&& r == Err::<Calibration, GeometryError>(GeometryError::ImplausiblePitch) <==> n >= 2
                && pitch < 48
            &&& r == Err::<Calibration, GeometryError>(GeometryError::BarsTooWide) <==> n >= 2
                && pitch >= 48 && wide
            &&& r == Err::<Calibration, GeometryError>(GeometryError::SentinelSpacingMismatch)
                <==> n >= 2 && pitch >= 48 && !wide && off
            &&& r is Ok <==> n >= 2 && pitch >= 48 && !wide && !off
            &&& r is Ok ==> r->Ok_0.unit == 12 && r->Ok_0.pitch == pitch && r->Ok_0.origin_x == 6
                * (a.0 + a.1)
        }),
{
    let f = Seq::new(
        g.width as nat,
        |x: int| ink_in_rows(g, m, control.top as int, control.bottom as int, x),
    );
    let c = band_clusters(g, m, control);
    spans_are_maximal_runs(f);
    assert forall|x: int| 0 <= x < g.width implies f[x] == #[trigger] column_in_band(
        g,
        m,
        control,
        x,
    ) by {
        if f[x] {
            let y = choose|y: int| control.top <= y <= control.bottom && fg(g, m, x, y);
            assert(stands_out(g, m, x, y));
        }
        if column_in_band(g, m, control, x) {
            let y = choose|y: int|
                control.top <= y <= control.bottom && #[trigger] stands_out(g, m, x, y);
            assert(fg(g, m, x, y));
        }
    }
    assert forall|i: int| 0 <= i < c.len() implies {
        let s = #[trigger] c[i];
        &&& 0 <= s.0 <= s.1 < g.width
        &&& forall|x: int| s.0 <= x <= s.1 ==> #[trigger] column_in_band(g, m, control, x)
        &&& s.0 == 0 || !column_in_band(g, m, control, s.0 - 1)
        &&& s.1 == g.width - 1 || !column_in_band(g, m, control, s.1 + 1)
    } by {
        let s = c[i];
        assert forall|x: int| s.0 <= x <= s.1 implies #[trigger] column_in_band(
            g,
            m,
            control,
            x,
        ) by {
            assert(f[x]);
        }
        if s.0 > 0 {
            assert(!f[s.0 - 1]);
        }
        if s.1 < g.width - 1 {
            assert(!f[s.1 + 1]);
        }
    }
    assert forall|x: int| 0 <= x < g.width && #[trigger] column_in_band(
        g,
        m,
        control,
        x,
    ) implies exists|i: int| 0 <= i < c.len() && (#[trigger] c[i]).0 <= x <= c[i].1 by {
        assert(f[x]);
    }
    assert(c.last() == c[c.len() - 1]);
    assert(are_inked_columns(g, m, control, c));
    if c.len() >= 2 {
        let (a, z) = (c[0], c[c.len() - 1]);
        let pitch = (z.0 + z.1) - (a.0 + a.1);
        assert(0 <= a.0 <= a.1 < g.width);
        assert(0 <= z.0 <= z.1 < g.width);
        assert(a.1 + 1 < z.0);
        let origin = 6 * twice_center(a);
        let d2 = 12 * (c[1].0 + c[1].1) - 12 * (a.0 + a.1) - 4 * pitch;
        let d4 = 12 * (c[2].0 + c[2].1) - 12 * (a.0 + a.1) - 8 * pitch;
        lemma_off_column(c[1], origin, pitch, 2, 2 * pitch);
        lemma_off_column(c[2], origin, pitch, 4, 4 * pitch);
        assert(too_wide(a, pitch) == (48 * (a.1 - a.0 + 1) > 3 * pitch));
        assert(too_wide(z, pitch) == (48 * (z.1 - z.0 + 1) > 3 * pitch));
        assert(twice_center(c.last()) - twice_center(c[0]) == pitch);
        assert(0 <= 6 * (a.0 + a.1) <= u64::MAX && 0 <= pitch <= u64::MAX);
        if control_calibration(g, m, control) is Ok {
            let v = calibration_of(c)->Ok_0;
            assert(v == (origin, pitch));
            assert(control_calibration(g, m, control)->Ok_0.origin_x == origin);
        }
    } else {
        assert(control_calibration(g, m, control) == Err::<Calibration, GeometryError>(
            GeometryError::MissingBars,
        ));
    }
}

/// A whole pixel is the nearest to the fraction `num / den`, the right one of two
/// equally near, and none is left of the first.
pub open spec fn is_nearest_to(px: int, num: int, den: int) -> bool {
    if num <= 0 {
        px == 0
    } else {
        2 * num - den < 2 * den * px <= 2 * num + den
    }
}

proof fn lemma_nearest(num: int, den: int)
    requires
        0 < den,
        num <= u32::MAX * den,
    ensures
        is_nearest_to(nearest_px(num, den), num, den),
        0 <= nearest_px(num, den) <= u32::MAX,
{
    if num > 0 {
        let q = (2 * num + den) / (2 * den);
        assert(2 * den * q <= 2 * num + den < 2 * den * (q + 1) && q >= 0) by (nonlinear_arith)
            requires
                q == (2 * num + den) / (2 * den),
                den > 0,
                num > 0,
        ;
        assert(2 * den * (q + 1) == 2 * den * q + 2 * den) by (nonlinear_arith);
        assert(q <= u32::MAX) by (nonlinear_arith)
            requires
                2 * den * q <= 2 * num + den,
                num <= u32::MAX * den,
                den > 0,
        ;
    }
}

/// The edges of a cell are exact up to one rounding. The window that is judged
/// reaches thirty-five hundredths of a pitch to either side of the center, the cell
/// that is shown half a pitch, and its last pixel is the one before the next cell.
pub proof fn edges_are_rounded_once(cal: Calibration, col: int, band: Band)
    requires
        cal.wf(),
        0 <= col,
        20 * (cal.origin_x + col * cal.pitch) + 10 * cal.pitch <= u32::MAX * (20 * cal.unit),
    ensures
        ({
            let c = 20 * (cal.origin_x + col * cal.pitch);
            let den = 20 * cal.unit;
            &&& is_nearest_to(cal.crop(col, band).left as int, c - 7 * cal.pitch, den)
            &&& is_nearest_to(cal.crop(col, band).right as int, c + 7 * cal.pitch, den)
            &&& is_nearest_to(cal.cell(col, band).left as int, c - 10 * cal.pitch, den)
            &&& cal.pixel(col, 10) >= 1 ==> is_nearest_to(
                cal.cell(col, band).right + 1,
                c + 10 * cal.pitch,
                den,
            )
            &&& cal.crop(col, band).top == band.top
            &&& cal.crop(col, band).bottom == band.bottom
            &&& cal.cell(col, band).top == band.top
            &&& cal.cell(col, band).bottom == band.bottom
        }),
{
    let den = 20 * cal.unit;
    lemma_nearest(cal.place(col, -7), den);
    lemma_nearest(cal.place(col, 7), den);
    lemma_nearest(cal.place(col, -10), den);
    lemma_nearest(cal.place(col, 10), den);
}

/// The number of positions from `lo` to `hi`, both counted.
pub proof fn extents_count_positions(lo: int, hi: int)
    requires
        lo <= hi,
    ensures
        extent(lo, hi) == vstd::set_lib::set_int_range(lo, hi + 1).len(),
{
    vstd::set_lib::lemma_int_range(lo, hi + 1);
}

} // verus!
