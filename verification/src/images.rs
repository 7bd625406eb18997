//! Images of 8-bit samples with one, three or four samples to a pixel.
//!
//! The pixels are held by the buffers of the `image` crate. What is said of
//! those buffers here is taken on trust from that crate: the three image
//! types, the width, height and samples of each, and how `from_raw`,
//! `dimensions` and `get_pixel` relate to them.

use vstd::prelude::*;

verus! {

/// What a single-channel image shows: its width, its height and its samples
/// row after row.
pub ghost struct Raster {
    pub width: nat,
    pub height: nat,
    pub samples: Seq<u8>,
}

impl Raster {
    /// Neither side is longer than an image's can be, and there is one
    /// sample for each pixel.
    pub open spec fn wf(&self) -> bool {
        &&& self.width <= u32::MAX
        &&& self.height <= u32::MAX
        &&& self.samples.len() == self.width * self.height
    }

    /// The sample at column `x` of row `y`.
    pub open spec fn at(&self, x: int, y: int) -> u8 {
        self.samples[y * self.width + x]
    }
}

/// An 8-bit single-channel image. The pixels live in an `image::GrayImage`,
/// which is reached only through the functions of this module.
#[verifier::external_body]
pub struct GrayImage {
    inner: image::GrayImage,
}

/// The number of pixel columns of the `image::GrayImage` inside.
pub uninterp spec fn gray_width(img: GrayImage) -> nat;

/// The number of pixel rows of the `image::GrayImage` inside.
pub uninterp spec fn gray_height(img: GrayImage) -> nat;

/// The samples of the `image::GrayImage` inside, row after row, each row from
/// left to right: the order in which `ImageBuffer::pixels` walks them.
pub uninterp spec fn gray_samples(img: GrayImage) -> Seq<u8>;

/// `image::ImageBuffer::from_raw` on a `Vec<u8>` with one sample per pixel.
/// It accepts the buffer when it holds at least `width * height` samples, and
/// the image then shows the first `width * height` of them.
#[verifier::external_body]
fn gray_from_raw(width: u32, height: u32, data: Vec<u8>) -> (r: Option<GrayImage>)
    ensures
        r is Some <==> width * height <= data@.len(),
        r is Some ==> {
            &&& gray_width(r->0) == width
            &&& gray_height(r->0) == height
            &&& gray_samples(r->0) == data@.subrange(0, width * height)
        },
{
    match image::GrayImage::from_raw(width, height, data) {
        Some(inner) => Some(GrayImage { inner }),
        None => None,
    }
}

/// `image::ImageBuffer::dimensions`: width, then height. An image buffer
/// always holds one sample for each of its pixels, so their number fits a
/// `usize`.
#[verifier::external_body]
fn gray_dimensions(img: &GrayImage) -> (r: (u32, u32))
    ensures
        r.0 == gray_width(*img),
        r.1 == gray_height(*img),
        gray_samples(*img).len() == r.0 * r.1,
        r.0 * r.1 <= usize::MAX,
{
    img.inner.dimensions()
}

/// `image::ImageBuffer::get_pixel`, which panics outside the image; inside
/// it reads the sample at `y * width + x`.
#[verifier::external_body]
fn gray_get_pixel(img: &GrayImage, x: u32, y: u32) -> (v: u8)
    requires
        x < gray_width(*img),
        y < gray_height(*img),
    ensures
        v == gray_samples(*img)[y * gray_width(*img) + x],
{
    img.inner.get_pixel(x, y).0[0]
}

impl View for GrayImage {
    type V = Raster;

    open spec fn view(&self) -> Raster {
        Raster {
            width: gray_width(*self),
            height: gray_height(*self),
            samples: gray_samples(*self),
        }
    }
}

impl GrayImage {
    /// Width, height and samples agree: one sample for each pixel.
    pub open spec fn wf(&self) -> bool {
        &&& gray_width(*self) <= u32::MAX
        &&& gray_height(*self) <= u32::MAX
        &&& gray_samples(*self).len() == gray_width(*self) * gray_height(*self)
    }

    /// The sample at column `x` of row `y`.
    pub open spec fn at(&self, x: int, y: int) -> u8 {
        gray_samples(*self)[y * gray_width(*self) + x]
    }

    /// An image over the first `width * height` samples of `data`, or `None`
    /// when `data` holds fewer.
    pub fn from_raw(width: u32, height: u32, data: Vec<u8>) -> (r: Option<GrayImage>)
        ensures
            r is Some <==> width * height <= data@.len(),
            r is Some ==> {
                &&& r->0.wf()
                &&& gray_width(r->0) == width
                &&& gray_height(r->0) == height
                &&& gray_samples(r->0) == data@.subrange(0, width * height)
            },
    {
        gray_from_raw(width, height, data)
    }

    /// Width, then height.
    pub fn dimensions(&self) -> (r: (u32, u32))
        ensures
            r.0 == gray_width(*self),
            r.1 == gray_height(*self),
            self.wf(),
            r.0 * r.1 <= usize::MAX,
    {
        gray_dimensions(self)
    }

    /// The number of pixel columns.
    pub fn width(&self) -> (w: u32)
        ensures
            w == gray_width(*self),
    {
        gray_dimensions(self).0
    }

    /// The number of pixel rows.
    pub fn height(&self) -> (h: u32)
        ensures
            h == gray_height(*self),
    {
        gray_dimensions(self).1
    }

    /// The sample at column `x` of row `y`, which lies in the image.
    pub fn get_pixel(&self, x: u32, y: u32) -> (v: u8)
        requires
            x < gray_width(*self),
            y < gray_height(*self),
        ensures
            v == self.at(x as int, y as int),
    {
        gray_get_pixel(self, x, y)
    }
}

/// An 8-bit image with a red, a green and a blue sample for each pixel. The
/// pixels live in an `image::RgbImage`, which is reached only through the
/// functions of this module.
#[verifier::external_body]
pub struct RgbImage {
    inner: image::RgbImage,
}

/// The number of pixel columns of the `image::RgbImage` inside.
pub uninterp spec fn rgb_width(img: RgbImage) -> nat;

/// The number of pixel rows of the `image::RgbImage` inside.
pub uninterp spec fn rgb_height(img: RgbImage) -> nat;

/// The samples of the `image::RgbImage` inside: pixel after pixel in the
/// order of `ImageBuffer::pixels`, 3 samples for each.
pub uninterp spec fn rgb_samples(img: RgbImage) -> Seq<u8>;

/// `image::ImageBuffer::from_raw` on a `Vec<u8>` with 3 samples per pixel.
/// It accepts the buffer when `3 * width * height`, taken in this order,
/// fits a `usize` and the buffer holds at least as many samples; the image
/// then shows the first of them.
#[verifier::external_body]
fn rgb_from_raw(width: u32, height: u32, data: Vec<u8>) -> (r: Option<RgbImage>)
    ensures
        r is Some <==> (3 * width <= usize::MAX && 3 * width * height <= data@.len()),
        r is Some ==> {
            &&& rgb_width(r->0) == width
            &&& rgb_height(r->0) == height
            &&& rgb_samples(r->0) == data@.subrange(0, 3 * width * height)
        },
{
    match image::RgbImage::from_raw(width, height, data) {
        Some(inner) => Some(RgbImage { inner }),
        None => None,
    }
}

/// `image::ImageBuffer::dimensions`: width, then height. An image buffer
/// always holds 3 samples for each of its pixels, so their number fits a
/// `usize`, as does the number of samples in a row, which every constructor
/// works out first.
#[verifier::external_body]
fn rgb_dimensions(img: &RgbImage) -> (r: (u32, u32))
    ensures
        r.0 == rgb_width(*img),
        r.1 == rgb_height(*img),
        rgb_samples(*img).len() == 3 * r.0 * r.1,
        3 * r.0 <= usize::MAX,
        3 * r.0 * r.1 <= usize::MAX,
{
    img.inner.dimensions()
}

/// `image::ImageBuffer::get_pixel`, which panics outside the image; inside
/// it reads the 3 samples from `3 * (y * width + x)` on.
#[verifier::external_body]
fn rgb_get_pixel(img: &RgbImage, x: u32, y: u32) -> (v: (u8, u8, u8))
    requires
        x < rgb_width(*img),
        y < rgb_height(*img),
    ensures
        v.0 == rgb_samples(*img)[3 * (y * rgb_width(*img) + x)],
        v.1 == rgb_samples(*img)[3 * (y * rgb_width(*img) + x) + 1],
        v.2 == rgb_samples(*img)[3 * (y * rgb_width(*img) + x) + 2],
{
    let p = img.inner.get_pixel(x, y).0;
    (p[0], p[1], p[2])
}

impl RgbImage {
    /// Width, height and samples agree: 3 samples for each pixel.
    pub open spec fn wf(&self) -> bool {
        &&& rgb_width(*self) <= u32::MAX
        &&& rgb_height(*self) <= u32::MAX
        &&& rgb_samples(*self).len() == 3 * rgb_width(*self) * rgb_height(*self)
    }

    /// Sample `c` of the pixel at column `x` of row `y`.
    pub open spec fn at(&self, x: int, y: int, c: int) -> u8 {
        rgb_samples(*self)[3 * (y * rgb_width(*self) + x) + c]
    }

    /// An image over the first `3 * width * height` samples of `data`, or
    /// `None` when `data` holds fewer or that number does not fit a `usize`.
    pub fn from_raw(width: u32, height: u32, data: Vec<u8>) -> (r: Option<RgbImage>)
        ensures
            r is Some <==> (3 * width <= usize::MAX && 3 * width * height <= data@.len()),
            r is Some ==> {
                &&& r->0.wf()
                &&& rgb_width(r->0) == width
                &&& rgb_height(r->0) == height
                &&& rgb_samples(r->0) == data@.subrange(0, 3 * width * height)
            },
    {
        rgb_from_raw(width, height, data)
    }

    /// Width, then height.
    pub fn dimensions(&self) -> (r: (u32, u32))
        ensures
            r.0 == rgb_width(*self),
            r.1 == rgb_height(*self),
            self.wf(),
            3 * r.0 <= usize::MAX,
            3 * r.0 * r.1 <= usize::MAX,
    {
        rgb_dimensions(self)
    }

    /// The number of pixel columns.
    pub fn width(&self) -> (w: u32)
        ensures
            w == rgb_width(*self),
    {
        rgb_dimensions(self).0
    }

    /// The number of pixel rows.
    pub fn height(&self) -> (h: u32)
        ensures
            h == rgb_height(*self),
    {
        rgb_dimensions(self).1
    }

    /// The samples of the pixel at column `x` of row `y`, which lies in the
    /// image.
    pub fn get_pixel(&self, x: u32, y: u32) -> (v: (u8, u8, u8))
        requires
            x < rgb_width(*self),
            y < rgb_height(*self),
        ensures
            v.0 == self.at(x as int, y as int, 0),
            v.1 == self.at(x as int, y as int, 1),
            v.2 == self.at(x as int, y as int, 2),
    {
        rgb_get_pixel(self, x, y)
    }
}

/// An 8-bit image with a red, a green, a blue and an alpha sample for each
/// pixel. The pixels live in an `image::RgbaImage`, which is reached only
/// through the functions of this module.
#[verifier::external_body]
pub struct RgbaImage {
    inner: image::RgbaImage,
}

/// The number of pixel columns of the `image::RgbaImage` inside.
pub uninterp spec fn rgba_width(img: RgbaImage) -> nat;

/// The number of pixel rows of the `image::RgbaImage` inside.
pub uninterp spec fn rgba_height(img: RgbaImage) -> nat;

/// The samples of the `image::RgbaImage` inside: pixel after pixel in the
/// order of `ImageBuffer::pixels`, 4 samples for each.
pub uninterp spec fn rgba_samples(img: RgbaImage) -> Seq<u8>;

/// `image::ImageBuffer::from_raw` on a `Vec<u8>` with 4 samples per pixel.
/// It accepts the buffer when `4 * width * height`, taken in this order,
/// fits a `usize` and the buffer holds at least as many samples; the image
/// then shows the first of them.
#[verifier::external_body]
fn rgba_from_raw(width: u32, height: u32, data: Vec<u8>) -> (r: Option<RgbaImage>)
    ensures
        r is Some <==> (4 * width <= usize::MAX && 4 * width * height <= data@.len()),
        r is Some ==> {
            &&& rgba_width(r->0) == width
            &&& rgba_height(r->0) == height
            &&& rgba_samples(r->0) == data@.subrange(0, 4 * width * height)
        },
{
    match image::RgbaImage::from_raw(width, height, data) {
        Some(inner) => Some(RgbaImage { inner }),
        None => None,
    }
}

/// `image::ImageBuffer::dimensions`: width, then height. An image buffer
/// always holds 4 samples for each of its pixels, so their number fits a
/// `usize`, as does the number of samples in a row, which every constructor
/// works out first.
#[verifier::external_body]
fn rgba_dimensions(img: &RgbaImage) -> (r: (u32, u32))
    ensures
        r.0 == rgba_width(*img),
        r.1 == rgba_height(*img),
        rgba_samples(*img).len() == 4 * r.0 * r.1,
        4 * r.0 <= usize::MAX,
        4 * r.0 * r.1 <= usize::MAX,
{
    img.inner.dimensions()
}

/// `image::ImageBuffer::get_pixel`, which panics outside the image; inside
/// it reads the 4 samples from `4 * (y * width + x)` on.
#[verifier::external_body]
fn rgba_get_pixel(img: &RgbaImage, x: u32, y: u32) -> (v: (u8, u8, u8, u8))
    requires
        x < rgba_width(*img),
        y < rgba_height(*img),
    ensures
        v.0 == rgba_samples(*img)[4 * (y * rgba_width(*img) + x)],
        v.1 == rgba_samples(*img)[4 * (y * rgba_width(*img) + x) + 1],
        v.2 == rgba_samples(*img)[4 * (y * rgba_width(*img) + x) + 2],
        v.3 == rgba_samples(*img)[4 * (y * rgba_width(*img) + x) + 3],
{
    let p = img.inner.get_pixel(x, y).0;
    (p[0], p[1], p[2], p[3])
}

impl RgbaImage {
    /// Width, height and samples agree: 4 samples for each pixel.
    pub open spec fn wf(&self) -> bool {
        &&& rgba_width(*self) <= u32::MAX
        &&& rgba_height(*self) <= u32::MAX
        &&& rgba_samples(*self).len() == 4 * rgba_width(*self) * rgba_height(*self)
    }

    /// Sample `c` of the pixel at column `x` of row `y`.
    pub open spec fn at(&self, x: int, y: int, c: int) -> u8 {
        rgba_samples(*self)[4 * (y * rgba_width(*self) + x) + c]
    }

    /// An image over the first `4 * width * height` samples of `data`, or
    /// `None` when `data` holds fewer or that number does not fit a `usize`.
    pub fn from_raw(width: u32, height: u32, data: Vec<u8>) -> (r: Option<RgbaImage>)
        ensures
            r is Some <==> (4 * width <= usize::MAX && 4 * width * height <= data@.len()),
            r is Some ==> {
                &&& r->0.wf()
                &&& rgba_width(r->0) == width
                &&& rgba_height(r->0) == height
                &&& rgba_samples(r->0) == data@.subrange(0, 4 * width * height)
            },
    {
        rgba_from_raw(width, height, data)
    }

    /// Width, then height.
    pub fn dimensions(&self) -> (r: (u32, u32))
        ensures
            r.0 == rgba_width(*self),
            r.1 == rgba_height(*self),
            self.wf(),
            4 * r.0 <= usize::MAX,
            4 * r.0 * r.1 <= usize::MAX,
    {
        rgba_dimensions(self)
    }

    /// The number of pixel columns.
    pub fn width(&self) -> (w: u32)
        ensures
            w == rgba_width(*self),
    {
        rgba_dimensions(self).0
    }

    /// The number of pixel rows.
    pub fn height(&self) -> (h: u32)
        ensures
            h == rgba_height(*self),
    {
        rgba_dimensions(self).1
    }

    /// The samples of the pixel at column `x` of row `y`, which lies in the
    /// image.
    pub fn get_pixel(&self, x: u32, y: u32) -> (v: (u8, u8, u8, u8))
        requires
            x < rgba_width(*self),
            y < rgba_height(*self),
        ensures
            v.0 == self.at(x as int, y as int, 0),
            v.1 == self.at(x as int, y as int, 1),
            v.2 == self.at(x as int, y as int, 2),
            v.3 == self.at(x as int, y as int, 3),
    {
        rgba_get_pixel(self, x, y)
    }
}

} // verus!
