//! Index folding at image borders, a plain 8-bit RGB image buffer and resampling.

use vstd::prelude::*;

use vstd::arithmetic::div_mod::{lemma_fundamental_div_mod, lemma_fundamental_div_mod_converse_mod};

verus! {

/// BORDER_REFLECT_101: the index `i` folded into `0..n` by mirroring at both edges
/// without repeating the edge sample. The fold is periodic with period `2n - 2`.
pub open spec fn reflect101_spec(i: int, n: int) -> int {
    if n <= 1 {
        0
    } else {
        let p = 2 * n - 2;
        let m = i % p;
        if m < n { m } else { p - m }
    }
}

proof fn lemma_mod_neg(i: int, p: int)
    requires
        p > 0,
    ensures
        (-i) % p == (if i % p == 0 { 0 } else { p - i % p }),
{
    lemma_fundamental_div_mod(i, p);
    let q = i / p;
    let m = i % p;
    if m == 0 {
        assert(-i == (-q) * p + 0) by (nonlinear_arith)
            requires i == p * q + m, m == 0;
        lemma_fundamental_div_mod_converse_mod(-i, p, -q, 0);
    } else {
        assert(-i == (-q - 1) * p + (p - m)) by (nonlinear_arith)
            requires i == p * q + m;
        lemma_fundamental_div_mod_converse_mod(-i, p, -q - 1, p - m);
    }
}

proof fn lemma_mod_shift(i: int, p: int)
    requires
        p > 0,
    ensures
        (i + p) % p == i % p,
{
    lemma_fundamental_div_mod(i, p);
    let q = i / p;
    assert(i + p == (q + 1) * p + i % p) by (nonlinear_arith)
        requires i == p * q + i % p;
    lemma_fundamental_div_mod_converse_mod(i + p, p, q + 1, i % p);
}

/// The fold is even: mirroring the index about the first sample does not change it.
pub proof fn lemma_reflect101_even(i: int, n: int)
    requires
        n >= 1,
    ensures
        reflect101_spec(-i, n) == reflect101_spec(i, n),
{
    if n > 1 {
        lemma_mod_neg(i, 2 * n - 2);
    }
}

/// The fold mirrors about the last sample: `n - 1 + k` and `n - 1 - k` meet.
pub proof fn lemma_reflect101_mirror_last(i: int, n: int)
    requires
        n >= 1,
    ensures
        reflect101_spec(2 * n - 2 - i, n) == reflect101_spec(i, n),
{
    if n > 1 {
        let p = 2 * n - 2;
        lemma_mod_neg(i, p);
        lemma_mod_shift(-i, p);
        assert(p - i == -i + p);
    }
}

/// The fold repeats with period `2n - 2`.
pub proof fn lemma_reflect101_periodic(i: int, n: int)
    requires
        n >= 1,
    ensures
        reflect101_spec(i + 2 * n - 2, n) == reflect101_spec(i, n),
{
    lemma_reflect101_mirror_last(-i, n);
    lemma_reflect101_even(i, n);
    assert(2 * n - 2 - (-i) == i + 2 * n - 2);
}

/// Indices inside the image are left alone.
pub proof fn lemma_reflect101_identity(i: int, n: int)
    requires
        0 <= i < n,
    ensures
        reflect101_spec(i, n) == i,
{
    if n > 1 {
        lemma_fundamental_div_mod_converse_mod(i, 2 * n - 2, 0, i);
    }
}

/// Every index lands inside the image.
pub proof fn lemma_reflect101_range(i: int, n: int)
    requires
        n >= 1,
    ensures
        0 <= reflect101_spec(i, n) < n,
{
    if n > 1 {
        lemma_fundamental_div_mod(i, 2 * n - 2);
    }
}

/// BORDER_REFLECT_101 index folding: maps any index `i` into `0..n`, mirroring at
/// the edges without repeating the edge sample (`-1 -> 1`, `n -> n - 2`).
/// `n == 1` always gives 0.
pub fn reflect101(i: isize, n: isize) -> (r: usize)
    requires
        n >= 1,
        i > isize::MIN,
    ensures
        r < n,
        r as int == reflect101_spec(i as int, n as int),
{
    if n == 1 {
        return 0;
    }
    let ghost i0 = i as int;
    let mut i = i;
    while i < 0 || i >= n
        invariant
            n >= 2,
            i > isize::MIN,
            reflect101_spec(i as int, n as int) == reflect101_spec(i0, n as int),
        decreases (if i < 0 { -2 * i + 1 } else { 2 * i }),
    {
        if i < 0 {
            proof {
                lemma_reflect101_even(i as int, n as int);
            }
            i = -i;
        }
        if i >= n {
            proof {
                lemma_reflect101_mirror_last(i as int, n as int);
            }
            i = (n - 1 - i) + (n - 1);
        }
    }
    proof {
        lemma_reflect101_identity(i as int, n as int);
    }
    i as usize
}

/// An 8-bit RGB image: `width * height` pixels in row-major order, three bytes
/// (red, green, blue) per pixel, the layout of `image::RgbImage`.
pub struct RgbBuf {
    pub width: u32,
    pub height: u32,
    pub data: Vec<u8>,
}

/// The three channels of a colour as a triple.
pub open spec fn rgb(c: [u8; 3]) -> (u8, u8, u8) {
    (c[0], c[1], c[2])
}

/// Three-byte-per-pixel layout: pixel `i` of a byte sequence.
pub open spec fn pixel_of(data: Seq<u8>, i: int) -> (u8, u8, u8) {
    (data[3 * i], data[3 * i + 1], data[3 * i + 2])
}

/// Byte offset of pixel `i` and its three channels stay below `3 * n` for `i < n`.
pub proof fn lemma_pixel_offset(i: int, n: int)
    requires
        0 <= i < n,
    ensures
        3 * i + 2 < 3 * n,
{
}

/// `3 * w * h` groups as `3 * (w * h)` and bounds `w * h`.
pub proof fn lemma_three_wh(w: int, h: int)
    requires
        w >= 0,
        h >= 0,
    ensures
        3 * w * h == 3 * (w * h),
        0 <= w * h <= 3 * w * h,
{
    assert(3 * w * h == 3 * (w * h)) by (nonlinear_arith);
    assert(0 <= w * h) by (nonlinear_arith) requires w >= 0, h >= 0;
}

impl RgbBuf {
    /// The buffer holds exactly three bytes per pixel.
    pub open spec fn wf(&self) -> bool {
        self.data@.len() == 3 * (self.width as int) * (self.height as int)
    }

    pub open spec fn num_pixels(&self) -> int {
        self.width as int * self.height as int
    }

    /// Colour of pixel `i` (row-major).
    pub open spec fn pixel(&self, i: int) -> (u8, u8, u8) {
        pixel_of(self.data@, i)
    }

    /// Row-major index of pixel `(x, y)`.
    pub open spec fn index(&self, x: int, y: int) -> int {
        y * self.width as int + x
    }

    /// A `width` x `height` image filled with one colour.
    pub fn from_pixel(width: u32, height: u32, color: [u8; 3]) -> (img: RgbBuf)
        requires
            3 * width * height <= usize::MAX,
        ensures
            img.width == width,
            img.height == height,
            img.wf(),
            forall|i: int| 0 <= i < img.num_pixels() ==> #[trigger] img.pixel(i) == rgb(color),
    {
        proof {
            lemma_three_wh(width as int, height as int);
        }
        let n: usize = width as usize * height as usize;
        let mut data: Vec<u8> = Vec::new();
        let mut i: usize = 0;
        while i < n
            invariant
                n == width * height,
                3 * n <= usize::MAX,
                i <= n,
                data@.len() == 3 * i,
                forall|j: int| 0 <= j < i ==> #[trigger] pixel_of(data@, j) == rgb(color),
            decreases n - i,
        {
            let ghost before = data@;
            data.push(color[0]);
            data.push(color[1]);
            data.push(color[2]);
            assert forall|j: int| 0 <= j < i + 1 implies #[trigger] pixel_of(data@, j) == rgb(color) by {
                if j < i {
                    assert(pixel_of(before, j) == rgb(color));
                }
            }
            i = i + 1;
        }
        RgbBuf { width, height, data }
    }

    /// A black `width` x `height` image.
    pub fn new(width: u32, height: u32) -> (img: RgbBuf)
        requires
            3 * width * height <= usize::MAX,
        ensures
            img.width == width,
            img.height == height,
            img.wf(),
            forall|i: int| 0 <= i < img.num_pixels() ==> #[trigger] img.pixel(i) == (0u8, 0u8, 0u8),
    {
        RgbBuf::from_pixel(width, height, [0u8, 0u8, 0u8])
    }

    /// Colour of pixel `(x, y)`.
    pub fn get_pixel(&self, x: u32, y: u32) -> (c: [u8; 3])
        requires
            self.wf(),
            x < self.width,
            y < self.height,
        ensures
            rgb(c) == self.pixel(self.index(x as int, y as int)),
    {
        proof {
            lemma_grid_index(x as int, y as int, self.width as int, self.height as int);
            lemma_pixel_offset(self.index(x as int, y as int), self.num_pixels());
            lemma_three_wh(self.width as int, self.height as int);
        }
        let _len = self.data.len();
        let i = 3 * (y as usize * self.width as usize + x as usize);
        [self.data[i], self.data[i + 1], self.data[i + 2]]
    }

    /// Sets pixel `(x, y)` to `c`, leaving every other pixel unchanged.
    pub fn put_pixel(&mut self, x: u32, y: u32, c: [u8; 3])
        requires
            old(self).wf(),
            x < old(self).width,
            y < old(self).height,
        ensures
            final(self).wf(),
            final(self).width == old(self).width,
            final(self).height == old(self).height,
            final(self).pixel(old(self).index(x as int, y as int)) == rgb(c),
            forall|i: int|
                0 <= i < old(self).num_pixels() && i != old(self).index(x as int, y as int)
                    ==> #[trigger] final(self).pixel(i) == old(self).pixel(i),
    {
        proof {
            lemma_grid_index(x as int, y as int, self.width as int, self.height as int);
            lemma_pixel_offset(self.index(x as int, y as int), self.num_pixels());
            lemma_three_wh(self.width as int, self.height as int);
        }
        let _len = self.data.len();
        let i = 3 * (y as usize * self.width as usize + x as usize);
        self.data.set(i, c[0]);
        self.data.set(i + 1, c[1]);
        self.data.set(i + 2, c[2]);
    }
}

/// `(x, y)` inside a `w` x `h` grid has row-major index below `w * h`.
pub proof fn lemma_grid_index(x: int, y: int, w: int, h: int)
    requires
        0 <= x < w,
        0 <= y < h,
    ensures
        0 <= y * w + x < w * h,
{
    assert(0 <= y * w + x < w * h) by (nonlinear_arith)
        requires 0 <= x < w, 0 <= y < h;
}

/// Resampling filters used with `image::imageops::resize`.
pub enum Resample {
    /// Bilinear (tent) filter.
    Triangle,
    /// Bicubic Catmull-Rom filter.
    CatmullRom,
}

/// The bytes that `image::imageops::resize` produces for a `width` x `height` RGB image
/// with bytes `data`, scaled to `nwidth` x `nheight` with `filter`.
pub uninterp spec fn resized_bytes(
    data: Seq<u8>,
    width: u32,
    height: u32,
    nwidth: u32,
    nheight: u32,
    filter: Resample,
) -> Seq<u8>;

/// Calls `image::imageops::resize`. Trusted: the output image has the requested size
/// and three bytes per pixel (the crate allocates it with `ImageBuffer::new(nwidth,
/// nheight)`), and its bytes are a function of the input bytes, the sizes and the filter.
/// The crate panics when a buffer size overflows `usize`; `requires` excludes that,
/// for the RGB output and for the four-channel `f32` intermediate image.
#[verifier::external_body]
fn image_resize(src: &RgbBuf, nwidth: u32, nheight: u32, filter: Resample) -> (out: RgbBuf)
    requires
        src.wf(),
        3 * nwidth * nheight <= usize::MAX,
        4 * src.width * nheight <= usize::MAX,
    ensures
        out.width == nwidth,
        out.height == nheight,
        out.wf(),
        out.data@ == resized_bytes(src.data@, src.width, src.height, nwidth, nheight, filter),
{
    let img = image::RgbImage::from_raw(src.width, src.height, src.data.clone()).unwrap();
    let f = match filter {
        Resample::Triangle => image::imageops::FilterType::Triangle,
        Resample::CatmullRom => image::imageops::FilterType::CatmullRom,
    };
    let out = image::imageops::resize(&img, nwidth, nheight, f);
    RgbBuf { width: out.width(), height: out.height(), data: out.into_raw() }
}

/// Bilinear resize of an 8-bit RGB image to `nw` x `nh`.
pub fn resize_rgb_bilinear(img: &RgbBuf, nw: u32, nh: u32) -> (out: RgbBuf)
    requires
        img.wf(),
        3 * nw * nh <= usize::MAX,
        4 * img.width * nh <= usize::MAX,
    ensures
        out.width == nw,
        out.height == nh,
        out.wf(),
        out.data@ == resized_bytes(img.data@, img.width, img.height, nw, nh, Resample::Triangle),
{
    image_resize(img, nw, nh, Resample::Triangle)
}

/// Bicubic (Catmull-Rom) resize of an 8-bit RGB image to `nw` x `nh`; used to enlarge
/// the finished canvas.
pub fn resize_rgb_cubic(img: &RgbBuf, nw: u32, nh: u32) -> (out: RgbBuf)
    requires
        img.wf(),
        3 * nw * nh <= usize::MAX,
        4 * img.width * nh <= usize::MAX,
    ensures
        out.width == nw,
        out.height == nh,
        out.wf(),
        out.data@ == resized_bytes(img.data@, img.width, img.height, nw, nh, Resample::CatmullRom),
{
    image_resize(img, nw, nh, Resample::CatmullRom)
}

/// Calls `image::imageops::overlay` at a non-negative offset. Trusted: for RGB pixels the
/// crate's `blend` replaces the bottom pixel by the top one, and the loop visits exactly
/// the part of `top` that falls inside `bottom` (see `overlay_bounds_ext`), so every pixel
/// `(x + a, y + b)` of `bottom` with `(a, b)` inside `top` takes `top`'s pixel and every
/// other pixel is left as it was.
#[verifier::external_body]
pub(crate) fn image_overlay(bottom: &mut RgbBuf, top: &RgbBuf, x: u32, y: u32)
    requires
        old(bottom).wf(),
        top.wf(),
    ensures
        final(bottom).width == old(bottom).width,
        final(bottom).height == old(bottom).height,
        final(bottom).wf(),
        forall|xx: int, yy: int|
            0 <= xx < old(bottom).width && 0 <= yy < old(bottom).height ==> #[trigger] final(bottom).pixel(
                old(bottom).index(xx, yy),
            ) == (if x <= xx < x + top.width && y <= yy < y + top.height {
                top.pixel(top.index(xx - x, yy - y))
            } else {
                old(bottom).pixel(old(bottom).index(xx, yy))
            }),
{
    let raw = std::mem::take(&mut bottom.data);
    let mut b = image::RgbImage::from_raw(bottom.width, bottom.height, raw).unwrap();
    let t = image::RgbImage::from_raw(top.width, top.height, top.data.clone()).unwrap();
    image::imageops::overlay(&mut b, &t, x as i64, y as i64);
    bottom.data = b.into_raw();
}

} // verus!
