//! Capture validity gate: reject blank / degenerate screenshots *before* any
//! assertion runs, so a broken capture path fails loudly instead of producing
//! thousands of misleading per-glyph verdicts.
//!
//! The statistics are exact integers. The Shannon entropy of the histogram is a
//! logarithm, which the caller evaluates; its verdict enters
//! [`CaptureStats::passes`] as a flag.
use crate::geom::{histogram, occurrences, occurrences_count_positions, positions_of};
use crate::raster::{luma, luma_milli, luma_of, Rgb, RgbImage};
use std::collections::HashSet;
use vstd::prelude::*;

verus! {

/// Measured statistics of a captured frame.
#[derive(Clone, Debug, PartialEq, Eq)]
pub struct CaptureStats {
    /// The 256-bin histogram of rounded luminance.
    pub histogram: Vec<u64>,
    /// Number of pixels.
    pub pixels: u64,
    /// Sum of the luminance values, in thousandths.
    pub milli_sum: u128,
    /// Sum of the squares of the luminance values, in millionths.
    pub square_sum: u128,
    /// Number of distinct colors observed.
    pub unique_colors: usize,
}

/// Minimum plausible-capture values.
#[derive(Clone, Copy, Debug, PartialEq, Eq, Structural)]
pub struct CaptureGate {
    /// Least standard deviation of the luminance.
    pub min_luminance_std_dev: u8,
    /// Least number of distinct colors.
    pub min_unique_colors: usize,
}

impl Default for CaptureGate {
    /// Flat swapchain surfaces and blank desktops have zero luminance
    /// deviation; the floors stay conservative, because deeper implausibility
    /// is caught by band matching downstream.
    fn default() -> (g: Self)
        ensures
            g.min_luminance_std_dev == 8,
            g.min_unique_colors == 2,
    {
        CaptureGate { min_luminance_std_dev: 8, min_unique_colors: 2 }
    }
}

// ---------------------------------------------------------------------------
// What is measured
// ---------------------------------------------------------------------------
/// The pixel colors of an image, row by row.
pub open spec fn colors(img: RgbImage) -> Seq<Rgb> {
    Seq::new(
        (img.data@.len() / 3) as nat,
        |i: int| (img.data@[3 * i], img.data@[3 * i + 1], img.data@[3 * i + 2]),
    )
}

/// The rounded luminance of every color.
pub open spec fn lumas(c: Seq<Rgb>) -> Seq<u8> {
    c.map_values(|x: Rgb| luma(x))
}

/// Sum of the luminance values, in thousandths.
pub open spec fn sum_milli(c: Seq<Rgb>) -> int
    decreases c.len(),
{
    if c.len() == 0 {
        0
    } else {
        sum_milli(c.drop_last()) + luma_milli(c.last())
    }
}

/// Sum of the squares of the luminance values, in millionths.
pub open spec fn sum_squares(c: Seq<Rgb>) -> int
    decreases c.len(),
{
    if c.len() == 0 {
        0
    } else {
        sum_squares(c.drop_last()) + luma_milli(c.last()) * luma_milli(c.last())
    }
}

/// A color as one number.
pub open spec fn color_code(c: Rgb) -> u32 {
    (c.0 * 0x1_0000 + c.1 * 0x100 + c.2) as u32
}

/// The colors that occur.
pub open spec fn palette(c: Seq<Rgb>) -> Set<u32>
    decreases c.len(),
{
    if c.len() == 0 {
        Set::empty()
    } else {
        palette(c.drop_last()).insert(color_code(c.last()))
    }
}

/// The statistics of a frame.
pub open spec fn are_stats(s: CaptureStats, c: Seq<Rgb>) -> bool {
    &&& s.histogram@.len() == 256
    &&& forall|v: int|
        0 <= v < 256 ==> #[trigger] s.histogram@[v] == occurrences(lumas(c), v)
    &&& s.pixels == c.len()
    &&& s.milli_sum == sum_milli(c)
    &&& s.square_sum == sum_squares(c)
    &&& s.unique_colors == palette(c).len()
}

/// Measure a captured RGB frame.
pub fn measure(img: &RgbImage) -> (s: CaptureStats)
    requires
        img.wf(),
    ensures
        are_stats(s, colors(*img)),
        s.bounded(),
{
    broadcast use vstd::std_specs::hash::group_hash_axioms;

    let len = img.data.len();
    let n = len / 3;
    let ghost all = colors(*img);
    let mut values: Vec<u8> = Vec::new();
    let mut seen: HashSet<u32> = HashSet::new();
    let mut milli_sum: u128 = 0;
    let mut square_sum: u128 = 0;
    proof {
        assert(all.take(0) =~= seq![]);
        assert(seen@ =~= palette(all.take(0)));
    }
    for i in 0..n
        invariant
            len == img.data@.len(),
            n == len / 3,
            all == colors(*img),
            values@ == lumas(all.take(i as int)),
            seen@ == palette(all.take(i as int)),
            milli_sum == sum_milli(all.take(i as int)),
            square_sum == sum_squares(all.take(i as int)),
            milli_sum <= 255_000 * i,
            square_sum <= 65_025_000_000 * i,
    {
        broadcast use vstd::std_specs::hash::group_hash_axioms;

        let r = img.data[3 * i];
        let g = img.data[3 * i + 1];
        let b = img.data[3 * i + 2];
        let c = (r, g, b);
        let m: u128 = 299 * r as u128 + 587 * g as u128 + 114 * b as u128;
        proof {
            assert(all.take(i + 1).drop_last() =~= all.take(i as int));
            assert(all.take(i + 1).last() == c);
            assert(m * m <= 65_025_000_000) by (nonlinear_arith)
                requires
                    m <= 255_000,
            ;
        }
        let l = luma_of(c);
        values.push(l);
        seen.insert(r as u32 * 0x1_0000 + g as u32 * 0x100 + b as u32);
        milli_sum = milli_sum + m;
        square_sum = square_sum + m * m;
        assert(values@ =~= lumas(all.take(i + 1)));
    }
    assert(all.take(n as int) =~= all);
    let hist = histogram(values.as_slice());
    CaptureStats {
        histogram: hist,
        pixels: n as u64,
        milli_sum,
        square_sum,
        unique_colors: seen.len(),
    }
}

impl CaptureStats {
    /// The sums are those of so many pixels.
    pub open spec fn bounded(self) -> bool {
        &&& self.milli_sum <= 255_000 * self.pixels
        &&& self.square_sum <= 65_025_000_000 * self.pixels
    }

    /// The standard deviation of the luminance is at least `least`: the mean of
    /// the squared distances from the mean luminance, multiplied out.
    pub open spec fn deviates(self, least: u8) -> bool {
        let n = self.pixels as int;
        if n == 0 {
            least == 0
        } else {
            n * self.square_sum - self.milli_sum * self.milli_sum >= 1_000_000 * (least * least) * (n
                * n)
        }
    }

    fn deviates_by(&self, least: u8) -> (b: bool)
        requires
            self.bounded(),
        ensures
            b == self.deviates(least),
    {
        if self.pixels == 0 {
            return least == 0;
        }
        let n = self.pixels as u128;
        let (m, q, d) = (self.milli_sum, self.square_sum, least as u128);
        // The sum is `mean` per pixel and `rest` on top: the products are those of
        // the two, so that none of them leaves a machine word.
        let mean = m / n;
        let rest = m % n;
        proof {
            vstd::arithmetic::div_mod::lemma_fundamental_div_mod(m as int, n as int);
            vstd::arithmetic::div_mod::lemma_mod_bound(m as int, n as int);
            assert(mean <= 255_000) by (nonlinear_arith)
                requires
                    m <= 255_000 * n,
                    m == n * mean + rest,
                    0 <= rest,
                    0 < n,
            ;
            assert(0 <= mean * mean <= 65_025_000_000) by (nonlinear_arith)
                requires
                    0 <= mean <= 255_000,
            ;
            assert(0 <= d * d <= 65_025) by (nonlinear_arith)
                requires
                    0 <= d <= 255,
            ;
            let (mm, l) = (mean * mean, 1_000_000 * (d * d));
            assert(0 <= n * mm <= 0x1_0000_0000_0000_0000 * 65_025_000_000) by (nonlinear_arith)
                requires
                    0 <= n <= 0x1_0000_0000_0000_0000,
                    0 <= mm <= 65_025_000_000,
            ;
            assert(0 <= l * n <= 65_025_000_000 * 0x1_0000_0000_0000_0000) by (nonlinear_arith)
                requires
                    0 <= n <= 0x1_0000_0000_0000_0000,
                    0 <= l <= 65_025_000_000,
            ;
            assert(0 <= mean * rest <= 255_000 * 0x1_0000_0000_0000_0000) by (nonlinear_arith)
                requires
                    0 <= mean <= 255_000,
                    0 <= rest <= 0x1_0000_0000_0000_0000,
            ;
            assert(0 <= rest * rest && rest * rest + (n - 1) <= 0xFFFF_FFFF_FFFF_FFFF
                * 0xFFFF_FFFF_FFFF_FFFF) by (nonlinear_arith)
                requires
                    0 <= rest <= n - 1,
                    0 < n <= 0xFFFF_FFFF_FFFF_FFFF,
            ;
        }
        let floor = n * (mean * mean) + 2 * (mean * rest) + 1_000_000 * (d * d) * n;
        let carry = (rest * rest + (n - 1)) / n;
        proof {
            lemma_wide(
                n as int,
                q as int,
                m as int,
                1_000_000 * (d * d),
                mean as int,
                rest as int,
                floor as int,
                carry as int,
            );
        }
        q >= floor + carry
    }

    /// A capture is plausible when it shows real rendered content rather than
    /// an empty desktop, a black swapchain surface, or a flat failure frame.
    /// `entropy_plausible` tells whether the entropy of the histogram reaches
    /// the caller's minimum.
    pub fn passes(&self, gate: &CaptureGate, entropy_plausible: bool) -> (ok: bool)
        requires
            self.bounded(),
        ensures
            ok == (entropy_plausible && self.deviates(gate.min_luminance_std_dev)
                && self.unique_colors >= gate.min_unique_colors),
    {
        entropy_plausible && self.deviates_by(gate.min_luminance_std_dev) && self.unique_colors
            >= gate.min_unique_colors
    }
}

proof fn lemma_wide(
    n: int,
    q: int,
    m: int,
    l: int,
    mean: int,
    rest: int,
    floor: int,
    carry: int,
)
    requires
        0 < n,
        0 <= rest < n,
        m == n * mean + rest,
        floor == n * (mean * mean) + 2 * (mean * rest) + l * n,
        carry == (rest * rest + (n - 1)) / n,
    ensures
        (q >= floor + carry) == (n * q - m * m >= l * (n * n)),
        carry < n,
{
    let top = rest * rest + (n - 1);
    vstd::arithmetic::div_mod::lemma_fundamental_div_mod(top, n);
    vstd::arithmetic::div_mod::lemma_mod_bound(top, n);
    let x = q - floor;
    assert(carry < n) by (nonlinear_arith)
        requires
            top == rest * rest + (n - 1),
            n * carry <= top,
            0 <= rest <= n - 1,
    ;
    assert((n * mean + rest) * (n * mean + rest) == n * (n * (mean * mean)) + n * (2 * (mean
        * rest)) + rest * rest) by (nonlinear_arith);
    assert(l * (n * n) == n * (l * n)) by (nonlinear_arith);
    let (a, b, c) = (n * (mean * mean), 2 * (mean * rest), l * n);
    assert(n * (q - (a + b + c)) == n * q - n * a - n * b - n * c) by (nonlinear_arith);
    assert(n * q - m * m - l * (n * n) == n * x - rest * rest);
    if x >= carry {
        assert(n * x >= n * carry) by (nonlinear_arith)
            requires
                x >= carry,
                n > 0,
        ;
    } else {
        assert(n * x <= n * carry - n) by (nonlinear_arith)
            requires
                x <= carry - 1,
                n > 0,
        ;
    }
}

// ---------------------------------------------------------------------------
// Laws
// ---------------------------------------------------------------------------
/// Sum over the pixels of the squared distance of `n` times the luminance from
/// `mean`, in thousandths.
pub open spec fn deviation_squares(c: Seq<Rgb>, n: int, mean: int) -> int
    decreases c.len(),
{
    if c.len() == 0 {
        0
    } else {
        let d = n * luma_milli(c.last()) - mean;
        deviation_squares(c.drop_last(), n, mean) + d * d
    }
}

/// What is tested is the standard deviation: the squared distances of the
/// luminance values from their mean add up to the squared minimum per pixel, or
/// more.
pub proof fn gate_tests_the_standard_deviation(s: CaptureStats, c: Seq<Rgb>, least: u8)
    requires
        are_stats(s, c),
        c.len() > 0,
    ensures
        s.deviates(least) <==> deviation_squares(c, c.len() as int, sum_milli(c)) >= (1_000_000 * (
        least * least)) * (c.len() * c.len() * c.len()),
{
    let n = c.len() as int;
    let m = sum_milli(c);
    lemma_deviation(c, n, m);
    let q = sum_squares(c);
    let l = 1_000_000 * (least * least);
    let (x, y, w) = (n * q, m * m, l * (n * n));
    assert(n * n * q == n * (n * q)) by (nonlinear_arith);
    assert(2 * n * m * m == 2 * (n * (m * m))) by (nonlinear_arith);
    assert(m * m * n == n * (m * m)) by (nonlinear_arith);
    assert(l * (n * n * n) == n * (l * (n * n))) by (nonlinear_arith);
    assert(n * (x - y - w) == n * x - n * y - n * w) by (nonlinear_arith);
    assert(deviation_squares(c, n, m) - l * (n * n * n) == n * (x - y - w));
    assert(x - y >= w <==> n * (x - y - w) >= 0) by (nonlinear_arith)
        requires
            n > 0,
    ;
}

proof fn lemma_deviation(c: Seq<Rgb>, n: int, k: int)
    ensures
        deviation_squares(c, n, k) == n * n * sum_squares(c) - 2 * n * k * sum_milli(c) + k * k
            * c.len(),
    decreases c.len(),
{
    if c.len() == 0 {
        assert(n * n * 0 - 2 * n * k * 0 + k * k * 0 == 0) by (nonlinear_arith);
    } else {
        lemma_deviation(c.drop_last(), n, k);
        let m = luma_milli(c.last());
        let (q, s, len) = (sum_squares(c.drop_last()), sum_milli(c.drop_last()), c.len() - 1);
        let nm = n * m;
        assert((nm - k) * (nm - k) == nm * nm - 2 * (nm * k) + k * k) by (nonlinear_arith);
        assert((n * m) * (n * m) == n * n * (m * m)) by (nonlinear_arith);
        assert(2 * ((n * m) * k) == 2 * n * k * m) by (nonlinear_arith);
        let (nn, mm, nk, kk) = (n * n, m * m, 2 * n * k, k * k);
        assert(nn * (q + mm) == nn * q + nn * mm) by (nonlinear_arith);
        assert(nk * (s + m) == nk * s + nk * m) by (nonlinear_arith);
        assert(kk * (len + 1) == kk * len + kk) by (nonlinear_arith);
    }
}

/// A frame of one gray color is rejected, whatever its entropy.
pub proof fn flat_gray_frames_are_rejected(s: CaptureStats, c: Seq<Rgb>, gate: CaptureGate, v: u8)
    requires
        are_stats(s, c),
        c.len() > 0,
        forall|i: int| 0 <= i < c.len() ==> #[trigger] c[i] == (v, v, v),
        gate.min_luminance_std_dev > 0,
    ensures
        !s.deviates(gate.min_luminance_std_dev),
        palette(c).len() == 1,
{
    lemma_flat(c, v);
    let n = c.len() as int;
    let w = v as int;
    let d = gate.min_luminance_std_dev as int;
    assert(n * (1_000_000 * (w * w) * n) == (1000 * w * n) * (1000 * w * n)) by (nonlinear_arith);
    assert(1_000_000 * (d * d) * (n * n) > 0) by (nonlinear_arith)
        requires
            d > 0,
            n > 0,
    ;
    assert(s.square_sum == 1_000_000 * (w * w) * n);
    assert(s.milli_sum == 1000 * w * n);
}

proof fn lemma_flat(c: Seq<Rgb>, v: u8)
    requires
        c.len() > 0,
        forall|i: int| 0 <= i < c.len() ==> #[trigger] c[i] == (v, v, v),
    ensures
        sum_milli(c) == 1000 * v * c.len(),
        sum_squares(c) == 1_000_000 * (v * v) * c.len(),
        palette(c) == Set::<u32>::empty().insert(color_code((v, v, v))),
        palette(c).len() == 1,
    decreases c.len(),
{
    let init = c.drop_last();
    let n = c.len() as int;
    let w = v as int;
    assert(c[c.len() - 1] == (v, v, v));
    assert(luma_milli((v, v, v)) == 1000 * w);
    assert((1000 * w) * (1000 * w) == 1_000_000 * (w * w)) by (nonlinear_arith);
    assert(w * n == w * (n - 1) + w && 1000 * w * n == 1000 * w * (n - 1) + 1000 * w && 1_000_000 * (w
        * w) * n == 1_000_000 * (w * w) * (n - 1) + 1_000_000 * (w * w)) by (nonlinear_arith);
    if init.len() == 0 {
        assert(w * 0 == 0 && 1000 * w * 0 == 0 && 1_000_000 * (w * w) * 0 == 0) by (
        nonlinear_arith);
        assert(sum_milli(init) == 0 && sum_squares(init) == 0);
        assert(palette(init) =~= Set::empty());
    } else {
        assert forall|i: int| 0 <= i < init.len() implies #[trigger] init[i] == (v, v, v) by {
            assert(c[i] == (v, v, v));
        }
        lemma_flat(init, v);
    }
    assert(palette(c) =~= Set::<u32>::empty().insert(color_code((v, v, v))));
}

/// The colors that occur.
pub open spec fn distinct(c: Seq<Rgb>) -> Set<Rgb> {
    Set::new(|x: Rgb| exists|i: int| 0 <= i < c.len() && #[trigger] c[i] == x)
}

proof fn lemma_codes_differ(a: Rgb, b: Rgb)
    ensures
        color_code(a) == color_code(b) <==> a == b,
{
}

proof fn lemma_distinct(c: Seq<Rgb>)
    ensures
        distinct(c).finite(),
        palette(c).finite(),
        distinct(c).len() == palette(c).len(),
        forall|x: Rgb| #[trigger] distinct(c).contains(x) <==> palette(c).contains(color_code(x)),
    decreases c.len(),
{
    if c.len() == 0 {
        assert(distinct(c) =~= Set::empty());
    } else {
        let d = c.drop_last();
        lemma_distinct(d);
        let last = c.last();
        assert(c[c.len() - 1] == last);
        assert forall|x: Rgb| #[trigger] distinct(c).contains(x) <==> distinct(d).insert(
            last,
        ).contains(x) by {
            if distinct(c).contains(x) {
                let i = choose|i: int| 0 <= i < c.len() && #[trigger] c[i] == x;
                if i < d.len() {
                    assert(d[i] == x);
                }
            }
            if distinct(d).contains(x) {
                let i = choose|i: int| 0 <= i < d.len() && #[trigger] d[i] == x;
                assert(c[i] == x);
            }
        }
        assert(distinct(c) =~= distinct(d).insert(last));
        assert forall|x: Rgb| #[trigger] distinct(c).contains(x) <==> palette(c).contains(
            color_code(x),
        ) by {
            lemma_codes_differ(x, last);
            assert(distinct(d).contains(x) <==> palette(d).contains(color_code(x)));
        }
        assert(distinct(d).contains(last) <==> palette(d).contains(color_code(last)));
    }
}

/// The statistics count: how many pixels there are, how many of them have each
/// luminance, and how many colors differ.
pub proof fn statistics_count_pixels_and_colors(s: CaptureStats, c: Seq<Rgb>, v: int)
    requires
        are_stats(s, c),
        0 <= v < 256,
    ensures
        s.pixels == c.len(),
        distinct(c).finite(),
        s.unique_colors == distinct(c).len(),
        Set::new(|i: int| 0 <= i < c.len() && luma(c[i]) == v).finite(),
        s.histogram@[v] == Set::new(|i: int| 0 <= i < c.len() && luma(c[i]) == v).len(),
{
    lemma_distinct(c);
    occurrences_count_positions(lumas(c), v);
    assert(positions_of(lumas(c), v) =~= Set::new(
        |i: int| 0 <= i < c.len() && luma(c[i]) == v,
    ));
    assert(s.histogram@[v] == occurrences(lumas(c), v));
}

} // verus!
