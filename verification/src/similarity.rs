//! The results of a comparison: planes of similarity values and the score.

use crate::window::Window;
use vstd::arithmetic::div_mod::{lemma_fundamental_div_mod, lemma_fundamental_div_mod_converse};
use vstd::prelude::*;

verus! {

/// A grid of similarity values, as wide and as high as the images compared,
/// with one, three or four values for each pixel. The values of a pixel stand
/// side by side, the pixels row after row.
#[derive(Debug)]
pub struct SimilarityPlane {
    pub width: u32,
    pub height: u32,
    pub channels: usize,
    pub data: Vec<i64>,
}

/// A pixel of an image of `width` by `height` has its place among
/// `width * height`, counted row after row.
pub proof fn lemma_pixel_index(x: int, y: int, width: int, height: int)
    requires
        0 <= x < width,
        0 <= y < height,
    ensures
        0 <= y * width + x < width * height,
        y * width >= 0,
{
    assert(y * width >= 0 && y * width + x < width * height) by (nonlinear_arith)
        requires
            0 <= x < width,
            0 <= y < height,
    ;
}

/// The pixel at place `k` of a grid lies in the grid, and its place is `k`.
pub proof fn lemma_pixel_of_index(k: int, width: int, height: int)
    requires
        width >= 1,
        0 <= k < width * height,
    ensures
        0 <= k % width < width,
        0 <= k / width < height,
        (k / width) * width + k % width == k,
{
    lemma_fundamental_div_mod(k, width);
    let q = k / width;
    let r = k % width;
    assert(0 <= q < height && q * width + r == k) by (nonlinear_arith)
        requires
            k == width * q + r,
            0 <= r < width,
            0 <= k < width * height,
    ;
}

/// The place of value `c` of the pixel `(x, y)` among all values of a plane.
pub proof fn lemma_value_index(x: int, y: int, c: int, width: int, height: int, channels: int)
    requires
        0 <= x < width,
        0 <= y < height,
        0 <= c < channels,
    ensures
        0 <= y * width + x < width * height,
        0 <= (y * width + x) * channels + c < width * height * channels,
        0 <= (y * width + x) * channels <= width * height * channels,
{
    lemma_pixel_index(x, y, width, height);
    let i = y * width + x;
    let n = width * height;
    assert(0 <= i * channels && i * channels + c < n * channels) by (nonlinear_arith)
        requires
            0 <= i < n,
            0 <= c < channels,
    ;
}

impl SimilarityPlane {
    /// The plane holds `channels` values for each of its pixels.
    pub open spec fn wf(&self) -> bool {
        &&& 1 <= self.channels <= 4
        &&& self.data@.len() == self.width * self.height * self.channels
    }

    /// Value `c` of the pixel at column `x` of row `y`.
    pub open spec fn value(&self, x: int, y: int, c: int) -> int {
        self.data@[(y * self.width + x) * self.channels + c] as int
    }

    /// The number of pixel columns.
    pub fn width(&self) -> (w: u32)
        ensures
            w == self.width,
    {
        self.width
    }

    /// The number of pixel rows.
    pub fn height(&self) -> (h: u32)
        ensures
            h == self.height,
    {
        self.height
    }

    /// Value `c` of the pixel at column `x` of row `y`.
    pub fn get(&self, x: u32, y: u32, c: usize) -> (v: i64)
        requires
            self.wf(),
            x < self.width,
            y < self.height,
            c < self.channels,
        ensures
            v == self.value(x as int, y as int, c as int),
    {
        let len: usize = self.data.len();
        proof {
            let i = y as int * self.width as int + x as int;
            lemma_value_index(
                x as int,
                y as int,
                c as int,
                self.width as int,
                self.height as int,
                self.channels as int,
            );
            assert(i <= i * self.channels) by (nonlinear_arith)
                requires
                    i >= 0,
                    self.channels >= 1,
            ;
            assert(i * self.channels + c < len);
            assert(y as int * self.width as int <= i);
        }
        let pixel: usize = y as usize * self.width as usize + x as usize;
        self.data[pixel * self.channels + c]
    }
}

/// The map of the differences that a comparison found.
#[derive(Debug)]
pub enum SimilarityImage {
    /// One value for each pixel.
    Gray(SimilarityPlane),
    /// Three values for each pixel.
    RGB(SimilarityPlane),
    /// Four values for each pixel.
    RGBA(SimilarityPlane),
}

impl SimilarityImage {
    /// The plane inside.
    pub open spec fn plane(&self) -> SimilarityPlane {
        match *self {
            SimilarityImage::Gray(p) => p,
            SimilarityImage::RGB(p) => p,
            SimilarityImage::RGBA(p) => p,
        }
    }

    /// The plane inside holds as many values for each pixel as the kind of
    /// map says.
    pub open spec fn wf(&self) -> bool {
        &&& self.plane().wf()
        &&& self is Gray ==> self.plane().channels == 1
        &&& self is RGB ==> self.plane().channels == 3
        &&& self is RGBA ==> self.plane().channels == 4
    }
}

/// The result of a comparison.
#[derive(Debug)]
pub struct Similarity {
    /// The differences pixel by pixel, where the comparison yields them.
    pub image: Option<SimilarityImage>,
    /// How similar the two images are as a whole.
    pub score: i64,
}

/// While a window is drawn row by row: the value at place `i` of a plane
/// `width` wide has been written when rows up to `y` and, in row `y`,
/// columns up to `x` are done.
pub open spec fn drawn(window: Window, width: int, i: int, x: int, y: int) -> bool {
    let col = i % width;
    let row = i / width;
    &&& window.top_left.0 <= col <= window.bottom_right.0
    &&& window.top_left.1 <= row
    &&& row < y || (row == y && col < x)
}

/// Gives every pixel of `image` inside `window` the value `val`, and leaves
/// the others as they are.
pub fn draw_window_to_image(window: &Window, image: &mut SimilarityPlane, val: i64)
    requires
        old(image).wf(),
        old(image).channels == 1,
        window.within(old(image).width as int, old(image).height as int),
    ensures
        final(image).wf(),
        final(image).channels == 1,
        final(image).width == old(image).width,
        final(image).height == old(image).height,
        forall|x: int, y: int|
            0 <= x < old(image).width && 0 <= y < old(image).height
                ==> #[trigger] final(image).value(x, y, 0) == (if window.contains(x, y) {
                val as int
            } else {
                old(image).value(x, y, 0)
            }),
{
    let width: usize = image.width as usize;
    let left: u32 = window.top_left.0;
    let right: u32 = window.bottom_right.0;
    let bottom: u32 = window.bottom_right.1;
    let ghost w = image.width as int;
    let ghost h = image.height as int;
    let ghost before = image.data@;
    proof {
        assert(w * h * 1 == w * h) by (nonlinear_arith);
    }
    let mut y: u32 = window.top_left.1;
    while y <= bottom
        invariant
            window.within(w, h),
            width == w,
            left == window.top_left.0,
            right == window.bottom_right.0,
            bottom == window.bottom_right.1,
            window.top_left.1 <= y <= bottom + 1,
            image.width == w,
            image.height == h,
            image.channels == 1,
            image.data@.len() == w * h,
            before.len() == w * h,
            forall|i: int|
                0 <= i < w * h ==> #[trigger] image.data@[i] == (if drawn(
                    *window,
                    w,
                    i,
                    left as int,
                    y as int,
                ) {
                    val
                } else {
                    before[i]
                }),
        decreases bottom + 1 - y,
    {
        let mut x: u32 = left;
        while x <= right
            invariant
                window.within(w, h),
                width == w,
                left == window.top_left.0,
                right == window.bottom_right.0,
                bottom == window.bottom_right.1,
                window.top_left.1 <= y <= bottom,
                left <= x <= right + 1,
                image.width == w,
                image.height == h,
                image.channels == 1,
                image.data@.len() == w * h,
                before.len() == w * h,
                forall|i: int|
                    0 <= i < w * h ==> #[trigger] image.data@[i] == (if drawn(
                        *window,
                        w,
                        i,
                        x as int,
                        y as int,
                    ) {
                        val
                    } else {
                        before[i]
                    }),
            decreases right + 1 - x,
        {
            proof {
                lemma_pixel_index(x as int, y as int, w, h);
            }
            let len: usize = image.data.len();
            let at: usize = y as usize * width + x as usize;
            let ghost earlier = image.data@;
            image.data.set(at, val);
            proof {
                lemma_fundamental_div_mod_converse(at as int, w, y as int, x as int);
                assert forall|i: int| 0 <= i < w * h implies #[trigger] image.data@[i] == (if drawn(
                    *window,
                    w,
                    i,
                    x as int + 1,
                    y as int,
                ) {
                    val
                } else {
                    before[i]
                }) by {
                    lemma_fundamental_div_mod(i, w);
                    if i != at {
                        assert(image.data@[i] == earlier[i]);
                        assert(!(i / w == y && i % w == x)) by (nonlinear_arith)
                            requires
                                i == w * (i / w) + i % w,
                                at == y * w + x,
                                i != at,
                        ;
                    }
                }
            }
            x = x + 1;
        }
        proof {
            assert forall|i: int| 0 <= i < w * h implies #[trigger] image.data@[i] == (if drawn(
                *window,
                w,
                i,
                left as int,
                y as int + 1,
            ) {
                val
            } else {
                before[i]
            }) by {
                lemma_fundamental_div_mod(i, w);
            }
        }
        y = y + 1;
    }
    proof {
        assert forall|x: int, y: int| 0 <= x < w && 0 <= y < h implies #[trigger] image.value(
            x,
            y,
            0,
        ) == (if window.contains(x, y) {
            val as int
        } else {
            old(image).value(x, y, 0)
        }) by {
            lemma_pixel_index(x, y, w, h);
            let i = y * w + x;
            lemma_fundamental_div_mod_converse(i, w, y, x);
            assert(i * 1 + 0 == i) by (nonlinear_arith);
            assert((y * w + x) * 1 + 0 == i);
        }
    }
}

} // verus!
