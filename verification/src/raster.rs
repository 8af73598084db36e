//! Plain pixel rasters.
//!
//! Both rasters are row-major and carry their dimensions; the pixel at `(x, y)`
//! is the unit of every contract in the crate.
use vstd::prelude::*;

verus! {

/// Row-major position of `(x, y)` in a raster `w` pixels wide.
pub open spec fn pos(x: int, y: int, w: int) -> int {
    y * w + x
}

/// A position inside a raster is a valid index, and distinct pixels have
/// distinct positions.
pub proof fn lemma_pos(x: int, y: int, w: int, h: int)
    requires
        0 <= x < w,
        0 <= y < h,
    ensures
        0 <= pos(x, y, w) < w * h,
        pos(x, y, w) / w == y,
        pos(x, y, w) % w == x,
{
    assert(y * w + x < w * h) by (nonlinear_arith)
        requires
            0 <= x < w,
            0 <= y < h,
    ;
    assert(0 <= y * w) by (nonlinear_arith)
        requires
            0 <= y,
            0 < w,
    ;
    vstd::arithmetic::div_mod::lemma_fundamental_div_mod_converse(pos(x, y, w), w, y, x);
}

/// Every index of a raster is the position of exactly one pixel.
pub proof fn lemma_index(i: int, w: int, h: int)
    requires
        0 <= i < w * h,
        0 <= w,
        0 <= h,
    ensures
        w > 0,
        0 <= i % w < w,
        0 <= i / w < h,
        pos(i % w, i / w, w) == i,
{
    assert(w > 0) by (nonlinear_arith)
        requires
            0 <= i < w * h,
            0 <= w,
            0 <= h,
    ;
    vstd::arithmetic::div_mod::lemma_fundamental_div_mod(i, w);
    vstd::arithmetic::div_mod::lemma_mod_bound(i, w);
    vstd::arithmetic::mul::lemma_mul_is_commutative(w, i / w);
    assert(0 <= i / w < h) by (nonlinear_arith)
        requires
            i == w * (i / w) + i % w,
            0 <= i % w < w,
            0 <= i < w * h,
            w > 0,
    ;
}

/// Computes [`pos`] for a raster of `len` pixels.
pub fn offset(x: u32, y: u32, w: u32, h: u32, len: usize) -> (i: usize)
    requires
        x < w,
        y < h,
        len == w * h,
    ensures
        i == pos(x as int, y as int, w as int),
        i < len,
{
    proof {
        lemma_pos(x as int, y as int, w as int, h as int);
        assert(0 <= y * w) by (nonlinear_arith);
    }
    y as usize * w as usize + x as usize
}

/// An 8-bit grayscale image.
#[derive(Clone, Debug, PartialEq, Eq)]
pub struct GrayImage {
    /// Width in pixels.
    pub width: u32,
    /// Height in pixels.
    pub height: u32,
    /// Luminance values, row by row.
    pub data: Vec<u8>,
}

/// A grayscale image as a mathematical object.
#[verifier::ext_equal]
pub ghost struct Gray {
    /// Width in pixels.
    pub width: u32,
    /// Height in pixels.
    pub height: u32,
    /// Luminance values, row by row.
    pub data: Seq<u8>,
}

impl Gray {
    /// The data covers the dimensions exactly.
    pub open spec fn wf(self) -> bool {
        self.data.len() == self.width * self.height
    }

    /// Luminance at `(x, y)`.
    pub open spec fn at(self, x: int, y: int) -> u8 {
        self.data[pos(x, y, self.width as int)]
    }
}

/// Two images of the same extent with the same pixels are the same.
pub proof fn lemma_same_gray(a: Gray, b: Gray)
    requires
        a.wf(),
        b.wf(),
        a.width == b.width,
        a.height == b.height,
        forall|x: int, y: int|
            0 <= x < a.width && 0 <= y < a.height ==> #[trigger] a.at(x, y) == b.at(x, y),
    ensures
        a == b,
{
    assert forall|i: int| 0 <= i < a.data.len() implies a.data[i] == b.data[i] by {
        lemma_index(i, a.width as int, a.height as int);
        assert(a.at(i % (a.width as int), i / (a.width as int)) == b.at(
            i % (a.width as int),
            i / (a.width as int),
        ));
    }
    assert(a.data =~= b.data);
}

/// The image with the given pixels.
pub open spec fn gray_of(width: u32, height: u32, px: spec_fn(int, int) -> u8) -> Gray {
    Gray {
        width,
        height,
        data: Seq::new(
            (width * height) as nat,
            |i: int| px(i % (width as int), i / (width as int)),
        ),
    }
}

/// The image with the given pixels has them.
pub proof fn lemma_gray_of(width: u32, height: u32, px: spec_fn(int, int) -> u8)
    ensures
        gray_of(width, height, px).wf(),
        forall|x: int, y: int|
            0 <= x < width && 0 <= y < height ==> #[trigger] gray_of(width, height, px).at(x, y)
                == px(x, y),
{
    assert(width * height >= 0) by (nonlinear_arith);
    assert forall|x: int, y: int| 0 <= x < width && 0 <= y < height implies #[trigger] gray_of(
        width,
        height,
        px,
    ).at(x, y) == px(x, y) by {
        lemma_pos(x, y, width as int, height as int);
    }
}

impl GrayImage {
    /// The image as a mathematical object.
    pub open spec fn view(&self) -> Gray {
        Gray { width: self.width, height: self.height, data: self.data@ }
    }

    /// The data covers the dimensions exactly.
    pub open spec fn wf(&self) -> bool {
        self@.wf()
    }

    /// Luminance at `(x, y)`.
    pub open spec fn at(&self, x: int, y: int) -> u8 {
        self@.at(x, y)
    }

    /// An image of one luminance.
    pub fn from_pixel(width: u32, height: u32, value: u8) -> (img: GrayImage)
        requires
            width * height <= usize::MAX,
        ensures
            img.wf(),
            img.width == width,
            img.height == height,
            forall|x: int, y: int|
                0 <= x < width && 0 <= y < height ==> #[trigger] img.at(x, y) == value,
    {
        assert(width * height <= u64::MAX) by (nonlinear_arith)
            requires
                width <= u32::MAX,
                height <= u32::MAX,
        ;
        let n = (width as u64 * height as u64) as usize;
        let mut data: Vec<u8> = Vec::new();
        for i in 0..n
            invariant
                data@.len() == i,
                forall|j: int| 0 <= j < i ==> data@[j] == value,
        {
            data.push(value);
        }
        let img = GrayImage { width, height, data };
        assert forall|x: int, y: int| 0 <= x < width && 0 <= y < height implies #[trigger] img.at(
            x,
            y,
        ) == value by {
            lemma_pos(x, y, width as int, height as int);
        }
        img
    }

    /// The image whose rows are stored in `data`, when the length fits.
    pub fn from_raw(width: u32, height: u32, data: Vec<u8>) -> (img: Option<GrayImage>)
        ensures
            match img {
                Some(i) => i.wf() && i.width == width && i.height == height && i.data == data,
                None => data@.len() != width * height,
            },
    {
        assert(width * height <= u64::MAX) by (nonlinear_arith)
            requires
                width <= u32::MAX,
                height <= u32::MAX,
        ;
        if data.len() as u64 == width as u64 * height as u64 {
            Some(GrayImage { width, height, data })
        } else {
            None
        }
    }

    /// Luminance at `(x, y)`.
    pub fn get_pixel(&self, x: u32, y: u32) -> (v: u8)
        requires
            self.wf(),
            x < self.width,
            y < self.height,
        ensures
            v == self.at(x as int, y as int),
    {
        self.data[offset(x, y, self.width, self.height, self.data.len())]
    }

    /// Sets the luminance at `(x, y)`; every other pixel keeps its value.
    pub fn put_pixel(&mut self, x: u32, y: u32, value: u8)
        requires
            old(self).wf(),
            x < old(self).width,
            y < old(self).height,
        ensures
            final(self).wf(),
            final(self).width == old(self).width,
            final(self).height == old(self).height,
            forall|a: int, b: int|
                0 <= a < old(self).width && 0 <= b < old(self).height ==> #[trigger] final(self).at(
                    a,
                    b,
                ) == (if a == x && b == y {
                    value
                } else {
                    old(self).at(a, b)
                }),
    {
        let i = offset(x, y, self.width, self.height, self.data.len());
        self.data.set(i, value);
        assert forall|a: int, b: int| 0 <= a < self.width && 0 <= b < self.height implies #[trigger]
        self.at(a, b) == (if a == x && b == y {
            value
        } else {
            old(self).at(a, b)
        }) by {
            lemma_pos(a, b, self.width as int, self.height as int);
            lemma_pos(x as int, y as int, self.width as int, self.height as int);
        }
    }
}

// ---------------------------------------------------------------------------
// Color rasters
// ---------------------------------------------------------------------------
/// A pixel: red, green, blue.
pub type Rgb = (u8, u8, u8);

/// An 8-bit RGB image.
#[derive(Clone, Debug, PartialEq, Eq)]
pub struct RgbImage {
    /// Width in pixels.
    pub width: u32,
    /// Height in pixels.
    pub height: u32,
    /// Channel values, three per pixel, row by row.
    pub data: Vec<u8>,
}

/// A picture as a mathematical object: its extent and its pixels.
pub ghost struct Pic {
    /// Width in pixels.
    pub w: int,
    /// Height in pixels.
    pub h: int,
    /// The pixel at a position.
    pub px: spec_fn(int, int) -> Rgb,
}

impl Pic {
    /// The position lies in the picture.
    pub open spec fn has(self, x: int, y: int) -> bool {
        0 <= x < self.w && 0 <= y < self.h
    }

    /// The pixel at a position.
    pub open spec fn at(self, x: int, y: int) -> Rgb {
        (self.px)(x, y)
    }
}

/// A picture of one color.
pub open spec fn flat(w: int, h: int, c: Rgb) -> Pic {
    Pic { w, h, px: |x: int, y: int| c }
}

/// `top` laid over `base` with its upper left corner at `(x, y)`; what sticks
/// out is cut off.
pub open spec fn laid_over(base: Pic, top: Pic, x: int, y: int) -> Pic {
    Pic {
        w: base.w,
        h: base.h,
        px: |a: int, b: int|
            if top.has(a - x, b - y) {
                top.at(a - x, b - y)
            } else {
                base.at(a, b)
            },
    }
}

/// Every pixel of `p` twice in each direction.
pub open spec fn doubled(p: Pic) -> Pic {
    Pic { w: 2 * p.w, h: 2 * p.h, px: |x: int, y: int| p.at(x / 2, y / 2) }
}

impl RgbImage {
    /// The data covers the dimensions exactly.
    pub open spec fn wf(&self) -> bool {
        self.data@.len() == 3 * (self.width * self.height)
    }

    /// The pixel at `(x, y)`.
    pub open spec fn at(&self, x: int, y: int) -> Rgb {
        let i = 3 * pos(x, y, self.width as int);
        (self.data@[i], self.data@[i + 1], self.data@[i + 2])
    }

    /// The image as a picture.
    pub open spec fn pic(&self) -> Pic {
        Pic { w: self.width as int, h: self.height as int, px: |x: int, y: int| self.at(x, y) }
    }

    /// The image shows the picture.
    pub open spec fn shows(&self, p: Pic) -> bool {
        &&& self.wf()
        &&& self.width == p.w
        &&& self.height == p.h
        &&& forall|x: int, y: int|
            0 <= x < self.width && 0 <= y < self.height ==> #[trigger] self.at(x, y) == p.at(x, y)
    }

    /// An image of one color.
    pub fn from_pixel(width: u32, height: u32, c: Rgb) -> (img: RgbImage)
        requires
            3 * (width * height) <= usize::MAX,
        ensures
            img.shows(flat(width as int, height as int, c)),
    {
        assert(0 <= width * height <= u64::MAX) by (nonlinear_arith)
            requires
                width <= u32::MAX,
                height <= u32::MAX,
        ;
        let n = (width as u64 * height as u64) as usize;
        let mut data: Vec<u8> = Vec::new();
        for i in 0..n
            invariant
                n == width * height,
                3 * (width * height) <= usize::MAX,
                data@.len() == 3 * i,
                forall|k: int|
                    0 <= k < 3 * i ==> #[trigger] data@[k] == (if k % 3 == 0 {
                        c.0
                    } else if k % 3 == 1 {
                        c.1
                    } else {
                        c.2
                    }),
        {
            data.push(c.0);
            data.push(c.1);
            data.push(c.2);
        }
        let img = RgbImage { width, height, data };
        assert forall|x: int, y: int| 0 <= x < width && 0 <= y < height implies #[trigger] img.at(
            x,
            y,
        ) == c by {
            lemma_pos(x, y, width as int, height as int);
        }
        img
    }

    /// The image whose rows are stored in `data`, when the length fits.
    pub fn from_raw(width: u32, height: u32, data: Vec<u8>) -> (img: Option<RgbImage>)
        ensures
            match img {
                Some(i) => i.wf() && i.width == width && i.height == height && i.data == data,
                None => data@.len() != 3 * (width * height),
            },
    {
        assert(0 <= width * height <= u64::MAX) by (nonlinear_arith)
            requires
                width <= u32::MAX,
                height <= u32::MAX,
        ;
        if data.len() as u128 == 3 * (width as u128 * height as u128) {
            Some(RgbImage { width, height, data })
        } else {
            None
        }
    }

    fn index(&self, x: u32, y: u32) -> (i: usize)
        requires
            self.wf(),
            x < self.width,
            y < self.height,
        ensures
            i == 3 * pos(x as int, y as int, self.width as int),
            i + 2 < self.data@.len(),
            i + 2 <= usize::MAX,
    {
        let len = self.data.len();
        3 * offset(x, y, self.width, self.height, len / 3)
    }

    /// The pixel at `(x, y)`.
    pub fn get_pixel(&self, x: u32, y: u32) -> (c: Rgb)
        requires
            self.wf(),
            x < self.width,
            y < self.height,
        ensures
            c == self.at(x as int, y as int),
    {
        let i = self.index(x, y);
        (self.data[i], self.data[i + 1], self.data[i + 2])
    }

    /// Sets the pixel at `(x, y)`; every other pixel keeps its value.
    pub fn put_pixel(&mut self, x: u32, y: u32, c: Rgb)
        requires
            old(self).wf(),
            x < old(self).width,
            y < old(self).height,
        ensures
            final(self).wf(),
            final(self).width == old(self).width,
            final(self).height == old(self).height,
            forall|a: int, b: int|
                0 <= a < old(self).width && 0 <= b < old(self).height ==> #[trigger] final(self).at(
                    a,
                    b,
                ) == (if a == x && b == y {
                    c
                } else {
                    old(self).at(a, b)
                }),
    {
        let i = self.index(x, y);
        self.data.set(i, c.0);
        self.data.set(i + 1, c.1);
        self.data.set(i + 2, c.2);
        assert forall|a: int, b: int| 0 <= a < self.width && 0 <= b < self.height implies #[trigger]
        self.at(a, b) == (if a == x && b == y {
            c
        } else {
            old(self).at(a, b)
        }) by {
            lemma_pos(a, b, self.width as int, self.height as int);
            lemma_pos(x as int, y as int, self.width as int, self.height as int);
        }
    }

    /// Lays `top` over the image with its upper left corner at `(x, y)`; what
    /// sticks out is cut off.
    pub fn overlay(&mut self, top: &RgbImage, x: u32, y: u32)
        requires
            old(self).wf(),
            top.wf(),
        ensures
            final(self).shows(laid_over(old(self).pic(), top.pic(), x as int, y as int)),
    {
        let w = if x >= self.width {
            0
        } else if self.width - x < top.width {
            self.width - x
        } else {
            top.width
        };
        let h = if y >= self.height {
            0
        } else if self.height - y < top.height {
            self.height - y
        } else {
            top.height
        };
        for b in 0..h
            invariant
                self.wf(),
                top.wf(),
                self.width == old(self).width,
                self.height == old(self).height,
                w <= top.width,
                h <= top.height,
                w > 0 ==> x + w <= self.width,
                h > 0 ==> y + h <= self.height,
                forall|i: int, j: int|
                    0 <= i < self.width && 0 <= j < self.height ==> #[trigger] self.at(i, j) == (
                    if x <= i < x + w && y <= j < y + b {
                        top.at(i - x, j - y)
                    } else {
                        old(self).at(i, j)
                    }),
        {
            for a in 0..w
                invariant
                    self.wf(),
                    top.wf(),
                    self.width == old(self).width,
                    self.height == old(self).height,
                    w <= top.width,
                    b < h <= top.height,
                    w > 0 ==> x + w <= self.width,
                    y + h <= self.height,
                    forall|i: int, j: int|
                        0 <= i < self.width && 0 <= j < self.height ==> #[trigger] self.at(i, j)
                            == (if (x <= i < x + w && y <= j < y + b) || (x <= i < x + a && j == y
                            + b) {
                            top.at(i - x, j - y)
                        } else {
                            old(self).at(i, j)
                        }),
            {
                self.put_pixel(x + a, y + b, top.get_pixel(a, b));
            }
        }
    }
}

/// A picture fixes the image that shows it, byte for byte.
pub proof fn images_are_fixed_by_their_picture(a: RgbImage, b: RgbImage, p: Pic)
    requires
        a.shows(p),
        b.shows(p),
    ensures
        a.width == b.width,
        a.height == b.height,
        a.data@ == b.data@,
{
    let w = a.width as int;
    let h = a.height as int;
    assert forall|i: int| 0 <= i < a.data@.len() implies a.data@[i] == b.data@[i] by {
        let k = i / 3;
        assert(0 <= k < w * h && i == 3 * k + i % 3 && 0 <= i % 3 < 3);
        lemma_index(k, w, h);
        let (x, y) = (k % w, k / w);
        assert(a.at(x, y) == p.at(x, y));
        assert(b.at(x, y) == p.at(x, y));
        assert(3 * pos(x, y, w) == 3 * k);
    }
    assert(a.data@ =~= b.data@);
}

/// Largest extent of an image whose doubling samples every pixel exactly.
pub const EXACT_ZOOM: u32 = 0x40_0000;

/// The bytes that `image::imageops::resize` with the nearest-neighbour filter
/// makes of the bytes of a `w` by `h` image, for `nw` by `nh` pixels.
pub uninterp spec fn resized(data: Seq<u8>, w: u32, h: u32, nw: u32, nh: u32) -> Seq<u8>;

/// `image::imageops::resize` with the nearest-neighbour filter, to `width` by
/// `height` pixels. The result has that size, and its bytes are a function of the
/// image and the size. Each output pixel samples the source at its own center
/// scaled back; for twice the width and twice the height of an image of at most
/// [`EXACT_ZOOM`] pixels per side that is exact in the sampler's arithmetic and
/// falls inside exactly one source pixel, so the result then shows every source
/// pixel twice in each direction. The sampler holds four floats per pixel of an
/// image of the old width and the new height, which must fit into memory. Which
/// pixels are sampled at other sizes is left unsaid.
#[verifier::external_body]
pub(crate) fn resize_nearest(img: &RgbImage, width: u32, height: u32) -> (out: RgbImage)
    requires
        img.wf(),
        0 < img.width,
        0 < img.height,
        16 * (img.width * height) <= isize::MAX,
        3 * (width * height) <= isize::MAX,
    ensures
        out.wf(),
        out.width == width,
        out.height == height,
        out.data@ == resized(img.data@, img.width, img.height, width, height),
        img.width <= EXACT_ZOOM && img.height <= EXACT_ZOOM && width == 2 * img.width && height == 2
            * img.height ==> out.shows(doubled(img.pic())),
{
    let src = image::RgbImage::from_raw(img.width, img.height, img.data.clone()).unwrap();
    let nearest = image::imageops::FilterType::Nearest;
    let out = image::imageops::resize(&src, width, height, nearest);
    RgbImage { width: out.width(), height: out.height(), data: out.into_raw() }
}

/// The picture that the bytes of a `w` by `h` image show.
pub open spec fn bytes_pic(data: Seq<u8>, w: int, h: int) -> Pic {
    Pic {
        w,
        h,
        px: |x: int, y: int|
            {
                let i = 3 * pos(x, y, w);
                (data[i], data[i + 1], data[i + 2])
            },
    }
}

/// An image at twice its size, nearest-neighbour: every pixel twice in each
/// direction, or what the sampler makes of an image too large for that.
pub open spec fn zoomed(img: RgbImage) -> Pic {
    if img.width <= EXACT_ZOOM && img.height <= EXACT_ZOOM {
        doubled(img.pic())
    } else {
        let (w, h) = (2 * img.width, 2 * img.height);
        bytes_pic(resized(img.data@, img.width, img.height, w as u32, h as u32), w, h)
    }
}

/// Doubles an image, nearest-neighbour.
pub fn zoom(img: &RgbImage) -> (out: RgbImage)
    requires
        img.wf(),
        0 < img.width,
        0 < img.height,
        2 * img.width <= u32::MAX,
        2 * img.height <= u32::MAX,
        32 * (img.width * img.height) <= isize::MAX,
    ensures
        out.shows(zoomed(*img)),
{
    proof {
        let (w, h) = (img.width as int, img.height as int);
        assert(16 * (w * (2 * h)) == 32 * (w * h) && 3 * ((2 * w) * (2 * h)) == 12 * (w * h) && 0
            <= w * h) by (nonlinear_arith)
            requires
                0 < w,
                0 < h,
        ;
    }
    resize_nearest(img, 2 * img.width, 2 * img.height)
}

// ---------------------------------------------------------------------------
// Luminance
// ---------------------------------------------------------------------------
/// A thousand times the Rec.601 luminance of a color.
pub open spec fn luma_milli(c: Rgb) -> int {
    299 * c.0 + 587 * c.1 + 114 * c.2
}

/// Rec.601 luminance of a color, to the nearest integer.
pub open spec fn luma(c: Rgb) -> u8 {
    ((luma_milli(c) + 500) / 1000) as u8
}

/// Rec.601 luminance of a color, to the nearest integer.
pub fn luma_of(c: Rgb) -> (l: u8)
    ensures
        l == luma(c),
        l == (luma_milli(c) + 500) / 1000,
{
    let m: u32 = 299 * c.0 as u32 + 587 * c.1 as u32 + 114 * c.2 as u32;
    ((m + 500) / 1000) as u8
}

/// Rec.601 grayscale, matching the luma used by the capture gate.
pub fn grayscale(img: &RgbImage) -> (gray: GrayImage)
    requires
        img.wf(),
    ensures
        gray.wf(),
        gray.width == img.width,
        gray.height == img.height,
        forall|x: int, y: int|
            0 <= x < img.width && 0 <= y < img.height ==> #[trigger] gray.at(x, y) == luma(
                img.at(x, y),
            ),
{
    let len = img.data.len();
    let n = len / 3;
    let mut data: Vec<u8> = Vec::new();
    for i in 0..n
        invariant
            img.wf(),
            len == img.data@.len(),
            n == img.width * img.height,
            data@.len() == i,
            forall|j: int|
                0 <= j < i ==> #[trigger] data@[j] == luma(
                    (img.data@[3 * j], img.data@[3 * j + 1], img.data@[3 * j + 2]),
                ),
    {
        data.push(luma_of((img.data[3 * i], img.data[3 * i + 1], img.data[3 * i + 2])));
    }
    let gray = GrayImage { width: img.width, height: img.height, data };
    assert forall|x: int, y: int| 0 <= x < img.width && 0 <= y < img.height implies #[trigger] gray.at(
        x,
        y,
    ) == luma(img.at(x, y)) by {
        lemma_pos(x, y, img.width as int, img.height as int);
        assert(gray.data@[pos(x, y, img.width as int)] == gray.at(x, y));
    }
    gray
}

/// A gray color keeps its luminance.
pub proof fn gray_keeps_its_luminance(v: u8)
    ensures
        luma((v, v, v)) == v,
{
}

/// The luminance of a color is the whole number nearest to the weighted sum of its
/// parts, by 299, 587 and 114 thousandths.
pub proof fn luminance_weighs_red_green_blue(c: Rgb)
    ensures
        -500 <= 1000 * luma(c) - (299 * c.0 + 587 * c.1 + 114 * c.2) <= 500,
        luma_milli(c) == 299 * c.0 + 587 * c.1 + 114 * c.2,
{
    let m = luma_milli(c);
    assert(0 <= m <= 255_000);
}

/// Pixels lie row by row, from left to right, with red, green and blue one behind
/// the other.
pub proof fn pixels_lie_row_by_row(img: RgbImage, g: GrayImage, x: int, y: int)
    ensures
        img.at(x, y) == (
            img.data@[3 * (y * img.width + x)],
            img.data@[3 * (y * img.width + x) + 1],
            img.data@[3 * (y * img.width + x) + 2],
        ),
        g.at(x, y) == g.data@[y * g.width + x],
        g@.at(x, y) == g.data@[y * g.width + x],
        g@.width == g.width,
        g@.height == g.height,
        g@.data == g.data@,
        img.wf() <==> img.data@.len() == 3 * (img.width * img.height),
        g.wf() <==> g.data@.len() == g.width * g.height,
{
}

/// A picture laid over another hides what is under it, is cut off at the edges, and
/// leaves the rest. A doubled picture shows every pixel as a square of four.
pub proof fn pictures_hide_what_is_under_them(
    base: Pic,
    top: Pic,
    x: int,
    y: int,
    a: int,
    b: int,
)
    ensures
        ({
            let p = laid_over(base, top, x, y);
            let over = x <= a < x + top.w && y <= b < y + top.h;
            &&& p.w == base.w
            &&& p.h == base.h
            &&& over ==> p.at(a, b) == top.at(a - x, b - y)
            &&& !over ==> p.at(a, b) == base.at(a, b)
        }),
        doubled(base).w == 2 * base.w,
        doubled(base).h == 2 * base.h,
        doubled(base).at(2 * a, 2 * b) == base.at(a, b),
        doubled(base).at(2 * a + 1, 2 * b) == base.at(a, b),
        doubled(base).at(2 * a, 2 * b + 1) == base.at(a, b),
        doubled(base).at(2 * a + 1, 2 * b + 1) == base.at(a, b),
{
}

} // verus!
