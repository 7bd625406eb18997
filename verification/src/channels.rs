//! Taking colour images apart into single-channel images, laying alpha over
//! a ground, and setting similarity planes side by side.

use crate::fixed::clamp;
use crate::images::{
    gray_height, gray_samples, gray_width, rgb_height, rgb_samples, rgb_width, rgba_height,
    rgba_samples, rgba_width, GrayImage, Raster, RgbImage, RgbaImage,
};
use crate::similarity::{lemma_pixel_index, SimilarityPlane};
use vstd::prelude::*;

verus! {

/// The luma of a colour: `0.299 R + 0.587 G + 0.114 B`, held within
/// `[0, 255]` and cut to a whole number.
pub open spec fn luma(r: u8, g: u8, b: u8) -> int {
    clamp(299 * r + 587 * g + 114 * b, 0, 255_000) / 1000
}

/// The blue chroma of a colour: `128 - 0.168736 R - 0.331264 G + 0.5 B`,
/// held within `[0, 255]` and cut to a whole number.
pub open spec fn chroma_u(r: u8, g: u8, b: u8) -> int {
    clamp(128_000_000 - 168_736 * r - 331_264 * g + 500_000 * b, 0, 255_000_000) / 1_000_000
}

/// The red chroma of a colour: `128 + 0.5 R - 0.418688 G - 0.081312 B`,
/// held within `[0, 255]` and cut to a whole number.
pub open spec fn chroma_v(r: u8, g: u8, b: u8) -> int {
    clamp(128_000_000 + 500_000 * r - 418_688 * g - 81_312 * b, 0, 255_000_000) / 1_000_000
}

/// A colour over a background: each sample is the colour's by the share
/// `alpha / 255` and the background's by the rest, cut to a whole number.
pub open spec fn blend(sample: u8, alpha: u8, background: u8) -> int {
    (sample * alpha + background * (255 - alpha)) / 255
}

/// Luma and the two chromas of the colour `rgb`.
pub fn rgb_to_yuv(rgb: (u8, u8, u8)) -> (yuv: (u8, u8, u8))
    ensures
        yuv.0 == luma(rgb.0, rgb.1, rgb.2),
        yuv.1 == chroma_u(rgb.0, rgb.1, rgb.2),
        yuv.2 == chroma_v(rgb.0, rgb.1, rgb.2),
{
    let r: i64 = rgb.0 as i64;
    let g: i64 = rgb.1 as i64;
    let b: i64 = rgb.2 as i64;
    let y: i64 = clamp_to(299 * r + 587 * g + 114 * b, 255_000) / 1000;
    let u: i64 = clamp_to(128_000_000 - 168_736 * r - 331_264 * g + 500_000 * b, 255_000_000)
        / 1_000_000;
    let v: i64 = clamp_to(128_000_000 + 500_000 * r - 418_688 * g - 81_312 * b, 255_000_000)
        / 1_000_000;
    (y as u8, u as u8, v as u8)
}

fn clamp_to(v: i64, hi: i64) -> (r: i64)
    requires
        hi >= 0,
    ensures
        r == clamp(v as int, 0, hi as int),
{
    if v < 0 {
        0
    } else if v > hi {
        hi
    } else {
        v
    }
}

/// Channel `c` of a colour image as an image of its own, where `samples`
/// holds `stride` samples for each of `width * height` pixels.
pub open spec fn plain_raster(
    width: nat,
    height: nat,
    samples: Seq<u8>,
    stride: int,
    c: int,
) -> Raster {
    Raster { width, height, samples: Seq::new(width * height, |k: int| samples[stride * k + c]) }
}

/// The luma of every pixel of a colour image as an image of its own.
pub open spec fn luma_raster(width: nat, height: nat, samples: Seq<u8>, stride: int) -> Raster {
    Raster {
        width,
        height,
        samples: Seq::new(
            width * height,
            |k: int|
                luma(samples[stride * k], samples[stride * k + 1], samples[stride * k + 2]) as u8,
        ),
    }
}

/// The blue chroma of every pixel of a colour image as an image of its own.
pub open spec fn chroma_u_raster(width: nat, height: nat, samples: Seq<u8>, stride: int) -> Raster {
    Raster {
        width,
        height,
        samples: Seq::new(
            width * height,
            |k: int|
                chroma_u(
                    samples[stride * k],
                    samples[stride * k + 1],
                    samples[stride * k + 2],
                ) as u8,
        ),
    }
}

/// The red chroma of every pixel of a colour image as an image of its own.
pub open spec fn chroma_v_raster(width: nat, height: nat, samples: Seq<u8>, stride: int) -> Raster {
    Raster {
        width,
        height,
        samples: Seq::new(
            width * height,
            |k: int|
                chroma_v(
                    samples[stride * k],
                    samples[stride * k + 1],
                    samples[stride * k + 2],
                ) as u8,
        ),
    }
}

/// The samples of `pixels` pixels with alpha, four to a pixel, laid over a
/// ground of the colour `color`: three samples to a pixel.
pub open spec fn blended_samples(rgba: Seq<u8>, pixels: nat, color: (u8, u8, u8)) -> Seq<u8> {
    Seq::new(
        3 * pixels,
        |i: int|
            blend(
                rgba[4 * (i / 3) + i % 3],
                rgba[4 * (i / 3) + 3],
                if i % 3 == 0 {
                    color.0
                } else if i % 3 == 1 {
                    color.1
                } else {
                    color.2
                },
            ) as u8,
    )
}

/// Which single-channel images are taken from a colour image: its samples
/// as they are, or luma and chromas.
#[derive(Clone, Copy)]
enum Split {
    Plain,
    Yuv,
}

/// Sample `c` of what `split` makes of pixel `k` of the samples `s`, three
/// to a pixel.
spec fn split_at(split: Split, s: Seq<u8>, k: int, c: int) -> int {
    match split {
        Split::Plain => s[3 * k + c] as int,
        Split::Yuv => if c == 0 {
            luma(s[3 * k], s[3 * k + 1], s[3 * k + 2])
        } else if c == 1 {
            chroma_u(s[3 * k], s[3 * k + 1], s[3 * k + 2])
        } else {
            chroma_v(s[3 * k], s[3 * k + 1], s[3 * k + 2])
        },
    }
}

fn split_rgb(img: &RgbImage, split: Split) -> (r: [GrayImage; 3])
    ensures
        forall|c: int|
            0 <= c < 3 ==> {
                &&& (#[trigger] r[c]).wf()
                &&& gray_width(r[c]) == rgb_width(*img)
                &&& gray_height(r[c]) == rgb_height(*img)
                &&& forall|k: int|
                    0 <= k < rgb_width(*img) * rgb_height(*img) ==> #[trigger] gray_samples(
                        r[c],
                    )[k] == split_at(split, rgb_samples(*img), k, c)
            },
{
    let (width, height) = img.dimensions();
    let ghost w = width as int;
    let ghost h = height as int;
    let ghost s = rgb_samples(*img);
    let mut first: Vec<u8> = Vec::new();
    let mut second: Vec<u8> = Vec::new();
    let mut third: Vec<u8> = Vec::new();
    let mut y: u32 = 0;
    while y < height
        invariant
            width == rgb_width(*img),
            height == rgb_height(*img),
            s == rgb_samples(*img),
            w == width,
            h == height,
            0 <= y <= height,
            first@.len() == y * w,
            second@.len() == y * w,
            third@.len() == y * w,
            forall|k: int| 0 <= k < first@.len() ==>
                #[trigger] first@[k] == split_at(split, s, k, 0),
            forall|k: int|
                0 <= k < second@.len() ==> #[trigger] second@[k] == split_at(split, s, k, 1),
            forall|k: int| 0 <= k < third@.len() ==>
                #[trigger] third@[k] == split_at(split, s, k, 2),
        decreases height - y,
    {
        let mut x: u32 = 0;
        while x < width
            invariant
                width == rgb_width(*img),
                height == rgb_height(*img),
                s == rgb_samples(*img),
                w == width,
                h == height,
                0 <= y < height,
                0 <= x <= width,
                first@.len() == y * w + x,
                second@.len() == y * w + x,
                third@.len() == y * w + x,
                forall|k: int|
                    0 <= k < first@.len() ==> #[trigger] first@[k] == split_at(split, s, k, 0),
                forall|k: int|
                    0 <= k < second@.len() ==> #[trigger] second@[k] == split_at(split, s, k, 1),
                forall|k: int|
                    0 <= k < third@.len() ==> #[trigger] third@[k] == split_at(split, s, k, 2),
            decreases width - x,
        {
            let rgb = img.get_pixel(x, y);
            let out = match split {
                Split::Plain => rgb,
                Split::Yuv => rgb_to_yuv(rgb),
            };
            first.push(out.0);
            second.push(out.1);
            third.push(out.2);
            x = x + 1;
        }
        proof {
            assert((y + 1) * w == y * w + w) by (nonlinear_arith);
        }
        y = y + 1;
    }
    proof {
        assert(height * w == w * h) by (nonlinear_arith)
            requires
                h == height,
        ;
    }
    let red = GrayImage::from_raw(width, height, first).unwrap();
    let green = GrayImage::from_raw(width, height, second).unwrap();
    let blue = GrayImage::from_raw(width, height, third).unwrap();
    let planes = [red, green, blue];
    assert(planes[0] == red && planes[1] == green && planes[2] == blue);
    assert forall|c: int| 0 <= c < 3 implies {
        &&& (#[trigger] planes[c]).wf()
        &&& gray_width(planes[c]) == rgb_width(*img)
        &&& gray_height(planes[c]) == rgb_height(*img)
        &&& forall|k: int|
            0 <= k < rgb_width(*img) * rgb_height(*img) ==> #[trigger] gray_samples(planes[c])[k]
                == split_at(split, rgb_samples(*img), k, c)
    } by {
        if c == 0 {
            assert(planes[c] == red);
            assert forall|k: int| 0 <= k < w * h implies #[trigger] gray_samples(red)[k]
                == split_at(split, s, k, 0) by {
                assert(gray_samples(red)[k] == first@[k]);
            }
        } else if c == 1 {
            assert(planes[c] == green);
            assert forall|k: int| 0 <= k < w * h implies #[trigger] gray_samples(green)[k]
                == split_at(split, s, k, 1) by {
                assert(gray_samples(green)[k] == second@[k]);
            }
        } else {
            assert(planes[c] == blue);
            assert forall|k: int| 0 <= k < w * h implies #[trigger] gray_samples(blue)[k]
                == split_at(split, s, k, 2) by {
                assert(gray_samples(blue)[k] == third@[k]);
            }
        }
    }
    planes
}

/// Taking a colour image apart into single-channel images.
pub trait Decompose {
    /// One image for each of red, green and blue.
    fn split_channels(&self) -> [GrayImage; 3];

    /// One image for luma and one for each chroma.
    fn split_to_yuv(&self) -> [GrayImage; 3];
}

impl Decompose for RgbImage {
    /// The red, the green and the blue samples, each as an image of its own.
    fn split_channels(&self) -> (r: [GrayImage; 3])
        ensures
            forall|c: int|
                0 <= c < 3 ==> (#[trigger] r[c])@ == plain_raster(
                    rgb_width(*self),
                    rgb_height(*self),
                    rgb_samples(*self),
                    3,
                    c,
                ),
    {
        let planes = split_rgb(self, Split::Plain);
        proof {
            assert forall|c: int| 0 <= c < 3 implies (#[trigger] planes[c])@ == plain_raster(
                rgb_width(*self),
                rgb_height(*self),
                rgb_samples(*self),
                3,
                c,
            ) by {
                let want = plain_raster(
                    rgb_width(*self),
                    rgb_height(*self),
                    rgb_samples(*self),
                    3,
                    c,
                );
                assert(planes[c].wf());
                assert forall|k: int| 0 <= k < want.samples.len() implies gray_samples(
                    planes[c],
                )[k] == want.samples[k] by {
                    assert(gray_samples(planes[c])[k] == split_at(
                        Split::Plain,
                        rgb_samples(*self),
                        k,
                        c,
                    ));
                }
                assert(planes[c]@.samples =~= want.samples);
            }
        }
        planes
    }

    /// Luma, blue chroma and red chroma of every pixel, each as an image of
    /// its own.
    fn split_to_yuv(&self) -> (r: [GrayImage; 3])
        ensures
            r[0]@ == luma_raster(rgb_width(*self), rgb_height(*self), rgb_samples(*self), 3),
            r[1]@ == chroma_u_raster(rgb_width(*self), rgb_height(*self), rgb_samples(*self), 3),
            r[2]@ == chroma_v_raster(rgb_width(*self), rgb_height(*self), rgb_samples(*self), 3),
    {
        let planes = split_rgb(self, Split::Yuv);
        proof {
            let s = rgb_samples(*self);
            let n = rgb_width(*self) * rgb_height(*self);
            assert(planes[0].wf() && planes[1].wf() && planes[2].wf());
            assert forall|k: int| 0 <= k < n implies gray_samples(planes[0])[k] == luma_raster(
                rgb_width(*self),
                rgb_height(*self),
                s,
                3,
            ).samples[k] by {
                assert(gray_samples(planes[0])[k] == split_at(Split::Yuv, s, k, 0));
            }
            assert forall|k: int| 0 <= k < n implies gray_samples(planes[1])[k] == chroma_u_raster(
                rgb_width(*self),
                rgb_height(*self),
                s,
                3,
            ).samples[k] by {
                assert(gray_samples(planes[1])[k] == split_at(Split::Yuv, s, k, 1));
            }
            assert forall|k: int| 0 <= k < n implies gray_samples(planes[2])[k] == chroma_v_raster(
                rgb_width(*self),
                rgb_height(*self),
                s,
                3,
            ).samples[k] by {
                assert(gray_samples(planes[2])[k] == split_at(Split::Yuv, s, k, 2));
            }
            assert(planes[0]@.samples =~= luma_raster(
                rgb_width(*self),
                rgb_height(*self),
                s,
                3,
            ).samples);
            assert(planes[1]@.samples =~= chroma_u_raster(
                rgb_width(*self),
                rgb_height(*self),
                s,
                3,
            ).samples);
            assert(planes[2]@.samples =~= chroma_v_raster(
                rgb_width(*self),
                rgb_height(*self),
                s,
                3,
            ).samples);
        }
        planes
    }
}

/// Luma, the two chromas and alpha of every pixel of `img`, each as an image
/// of its own: luma and chromas from the colour alone, alpha as it is.
pub fn split_rgba_to_yuva(img: &RgbaImage) -> (r: [GrayImage; 4])
    ensures
        r[0]@ == luma_raster(rgba_width(*img), rgba_height(*img), rgba_samples(*img), 4),
        r[1]@ == chroma_u_raster(rgba_width(*img), rgba_height(*img), rgba_samples(*img), 4),
        r[2]@ == chroma_v_raster(rgba_width(*img), rgba_height(*img), rgba_samples(*img), 4),
        r[3]@ == plain_raster(rgba_width(*img), rgba_height(*img), rgba_samples(*img), 4, 3),
{
    let (width, height) = img.dimensions();
    let ghost w = width as int;
    let ghost h = height as int;
    let ghost s = rgba_samples(*img);
    let mut first: Vec<u8> = Vec::new();
    let mut second: Vec<u8> = Vec::new();
    let mut third: Vec<u8> = Vec::new();
    let mut fourth: Vec<u8> = Vec::new();
    let mut y: u32 = 0;
    while y < height
        invariant
            width == rgba_width(*img),
            height == rgba_height(*img),
            s == rgba_samples(*img),
            w == width,
            h == height,
            0 <= y <= height,
            first@.len() == y * w,
            second@.len() == y * w,
            third@.len() == y * w,
            fourth@.len() == y * w,
            forall|k: int|
                0 <= k < first@.len() ==> #[trigger] first@[k] == luma(
                    s[4 * k],
                    s[4 * k + 1],
                    s[4 * k + 2],
                ),
            forall|k: int|
                0 <= k < second@.len() ==> #[trigger] second@[k] == chroma_u(
                    s[4 * k],
                    s[4 * k + 1],
                    s[4 * k + 2],
                ),
            forall|k: int|
                0 <= k < third@.len() ==> #[trigger] third@[k] == chroma_v(
                    s[4 * k],
                    s[4 * k + 1],
                    s[4 * k + 2],
                ),
            forall|k: int| 0 <= k < fourth@.len() ==> #[trigger] fourth@[k] == s[4 * k + 3],
        decreases height - y,
    {
        let mut x: u32 = 0;
        while x < width
            invariant
                width == rgba_width(*img),
                height == rgba_height(*img),
                s == rgba_samples(*img),
                w == width,
                h == height,
                0 <= y < height,
                0 <= x <= width,
                first@.len() == y * w + x,
                second@.len() == y * w + x,
                third@.len() == y * w + x,
                fourth@.len() == y * w + x,
                forall|k: int|
                    0 <= k < first@.len() ==> #[trigger] first@[k] == luma(
                        s[4 * k],
                        s[4 * k + 1],
                        s[4 * k + 2],
                    ),
                forall|k: int|
                    0 <= k < second@.len() ==> #[trigger] second@[k] == chroma_u(
                        s[4 * k],
                        s[4 * k + 1],
                        s[4 * k + 2],
                    ),
                forall|k: int|
                    0 <= k < third@.len() ==> #[trigger] third@[k] == chroma_v(
                        s[4 * k],
                        s[4 * k + 1],
                        s[4 * k + 2],
                    ),
                forall|k: int| 0 <= k < fourth@.len() ==> #[trigger] fourth@[k] == s[4 * k + 3],
            decreases width - x,
        {
            let rgba = img.get_pixel(x, y);
            let yuv = rgb_to_yuv((rgba.0, rgba.1, rgba.2));
            first.push(yuv.0);
            second.push(yuv.1);
            third.push(yuv.2);
            fourth.push(rgba.3);
            x = x + 1;
        }
        proof {
            assert((y + 1) * w == y * w + w) by (nonlinear_arith);
        }
        y = y + 1;
    }
    proof {
        assert(height * w == w * h) by (nonlinear_arith)
            requires
                h == height,
        ;
    }
    let luma_plane = GrayImage::from_raw(width, height, first).unwrap();
    let u_plane = GrayImage::from_raw(width, height, second).unwrap();
    let v_plane = GrayImage::from_raw(width, height, third).unwrap();
    let alpha_plane = GrayImage::from_raw(width, height, fourth).unwrap();
    proof {
        assert(luma_plane@.samples =~= luma_raster(
            rgba_width(*img),
            rgba_height(*img),
            s,
            4,
        ).samples);
        assert(u_plane@.samples =~= chroma_u_raster(
            rgba_width(*img),
            rgba_height(*img),
            s,
            4,
        ).samples);
        assert(v_plane@.samples =~= chroma_v_raster(
            rgba_width(*img),
            rgba_height(*img),
            s,
            4,
        ).samples);
        assert(alpha_plane@.samples =~= plain_raster(
            rgba_width(*img),
            rgba_height(*img),
            s,
            4,
            3,
        ).samples);
    }
    let planes = [luma_plane, u_plane, v_plane, alpha_plane];
    assert(planes[0] == luma_plane && planes[1] == u_plane && planes[2] == v_plane && planes[3]
        == alpha_plane);
    planes
}

/// Lays `image` over a ground of the colour `color`: what `blend` makes of
/// each sample, its pixel's alpha and the ground.
pub fn blend_alpha(image: &RgbaImage, color: (u8, u8, u8)) -> (r: RgbImage)
    ensures
        r.wf(),
        rgb_width(r) == rgba_width(*image),
        rgb_height(r) == rgba_height(*image),
        rgb_samples(r) == blended_samples(
            rgba_samples(*image),
            rgba_width(*image) * rgba_height(*image),
            color,
        ),
{
    let (width, height) = image.dimensions();
    let ghost w = width as int;
    let ghost h = height as int;
    let ghost s = rgba_samples(*image);
    let ghost want = blended_samples(s, (w * h) as nat, color);
    let mut data: Vec<u8> = Vec::new();
    let mut y: u32 = 0;
    proof {
        assert(w * h >= 0) by (nonlinear_arith)
            requires
                w >= 0,
                h >= 0,
        ;
    }
    while y < height
        invariant
            width == rgba_width(*image),
            height == rgba_height(*image),
            s == rgba_samples(*image),
            want == blended_samples(s, (w * h) as nat, color),
            w == width,
            h == height,
            0 <= y <= height,
            data@.len() == 3 * (y * w),
            forall|i: int| 0 <= i < data@.len() ==> #[trigger] data@[i] == want[i],
        decreases height - y,
    {
        let mut x: u32 = 0;
        while x < width
            invariant
                width == rgba_width(*image),
                height == rgba_height(*image),
                s == rgba_samples(*image),
                want == blended_samples(s, (w * h) as nat, color),
                w == width,
                h == height,
                0 <= y < height,
                0 <= x <= width,
                data@.len() == 3 * (y * w + x),
                forall|i: int| 0 <= i < data@.len() ==> #[trigger] data@[i] == want[i],
            decreases width - x,
        {
            let rgba = image.get_pixel(x, y);
            let ghost k = y as int * w + x as int;
            proof {
                lemma_pixel_index(x as int, y as int, w, h);
                assert((3 * k) / 3 == k && (3 * k) % 3 == 0);
                assert((3 * k + 1) / 3 == k && (3 * k + 1) % 3 == 1);
                assert((3 * k + 2) / 3 == k && (3 * k + 2) % 3 == 2);
                assert(3 * k + 2 < 3 * (w * h));
            }
            data.push(blend_sample(rgba.0, rgba.3, color.0));
            data.push(blend_sample(rgba.1, rgba.3, color.1));
            data.push(blend_sample(rgba.2, rgba.3, color.2));
            x = x + 1;
        }
        proof {
            assert((y + 1) * w == y * w + w) by (nonlinear_arith);
        }
        y = y + 1;
    }
    proof {
        assert(3 * (height * w) == 3 * w * h) by (nonlinear_arith)
            requires
                h == height,
        ;
        assert(3 * (w * h) == 3 * w * h) by (nonlinear_arith);
        assert(3 * w <= 4 * w);
    }
    let blended = RgbImage::from_raw(width, height, data).unwrap();
    proof {
        assert(rgb_samples(blended) =~= want);
    }
    blended
}

fn blend_sample(sample: u8, alpha: u8, background: u8) -> (r: u8)
    ensures
        r == blend(sample, alpha, background),
{
    let s: u32 = sample as u32;
    let a: u32 = alpha as u32;
    let b: u32 = background as u32;
    assert(s * a + b * (255 - a) <= 255 * 255) by (nonlinear_arith)
        requires
            s <= 255,
            a <= 255,
            b <= 255,
    ;
    ((s * a + b * (255 - a)) / 255) as u8
}

/// Sets three single-channel planes of one size side by side: value `c` of
/// a pixel of the result is the value that plane `c` holds there.
pub fn merge_similarity_channels(input: &[&SimilarityPlane; 3]) -> (r: SimilarityPlane)
    requires
        forall|c: int|
            0 <= c < 3 ==> {
                &&& (#[trigger] input[c]).wf()
                &&& input[c].channels == 1
                &&& input[c].width == input[0].width
                &&& input[c].height == input[0].height
            },
    ensures
        r.wf(),
        r.channels == 3,
        r.width == input[0].width,
        r.height == input[0].height,
        forall|x: int, y: int, c: int|
            0 <= x < r.width && 0 <= y < r.height && 0 <= c < 3 ==> #[trigger] r.value(x, y, c)
                == input[c].value(x, y, 0),
{
    let width: u32 = input[0].width;
    let height: u32 = input[0].height;
    let ghost w = width as int;
    let ghost h = height as int;
    let count: usize = input[0].data.len();
    let mut data: Vec<i64> = Vec::new();
    let mut k: usize = 0;
    proof {
        assert(input[0].wf() && input[1].wf() && input[2].wf());
        assert(w * h * 1 == w * h) by (nonlinear_arith);
    }
    while k < count
        invariant
            count == w * h,
            k <= count,
            input[0].data@.len() == count,
            input[1].data@.len() == count,
            input[2].data@.len() == count,
            data@.len() == 3 * k,
            forall|i: int|
                0 <= i < k ==> {
                    &&& #[trigger] data@[3 * i] == input[0].data@[i]
                    &&& data@[3 * i + 1] == input[1].data@[i]
                    &&& data@[3 * i + 2] == input[2].data@[i]
                },
        decreases count - k,
    {
        let ghost before = data@;
        data.push(input[0].data[k]);
        data.push(input[1].data[k]);
        data.push(input[2].data[k]);
        proof {
            assert forall|i: int| 0 <= i < k + 1 implies {
                &&& #[trigger] data@[3 * i] == input[0].data@[i]
                &&& data@[3 * i + 1] == input[1].data@[i]
                &&& data@[3 * i + 2] == input[2].data@[i]
            } by {
                if i < k {
                    assert(data@[3 * i] == before[3 * i]);
                    assert(data@[3 * i + 1] == before[3 * i + 1]);
                    assert(data@[3 * i + 2] == before[3 * i + 2]);
                }
            }
        }
        k = k + 1;
    }
    let merged = SimilarityPlane { width, height, channels: 3, data };
    proof {
        assert(w * h * 3 == 3 * (w * h)) by (nonlinear_arith);
        assert forall|x: int, y: int, c: int|
            0 <= x < w && 0 <= y < h && 0 <= c < 3 implies #[trigger] merged.value(x, y, c)
            == input[c].value(x, y, 0) by {
            lemma_pixel_index(x, y, w, h);
            let i = y * w + x;
            assert(data@[3 * i] == input[0].data@[i]);
            assert(i * 3 == 3 * i && i * 1 + 0 == i) by (nonlinear_arith);
        }
    }
    merged
}

} // verus!
