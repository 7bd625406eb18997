//! The hybrid comparison: luma by structure, the chromas and alpha sample by
//! sample, and the three or four similarity planes brought together.
//!
//! A pixel is as similar as the least similar of its channels. Without
//! alpha the score is the plain mean of that over the pixels. With alpha the
//! least similarity of a pixel is divided by the mean of its two alphas
//! before the mean is taken, so that what is nearly clear counts less.

use crate::channels::{
    blend_alpha, blended_samples, chroma_u_raster, chroma_v_raster, luma_raster, plain_raster,
    split_rgba_to_yuva, Decompose,
};
use crate::fixed::{clamp, floor_sqrt, isqrt, lemma_floor_sqrt, min2, SCALE};
use crate::images::{
    gray_height, gray_width, rgb_height, rgb_samples, rgb_width, rgba_height, rgba_samples,
    rgba_width, GrayImage, RgbImage, RgbaImage,
};
use crate::similarity::{
    lemma_pixel_index, lemma_pixel_of_index, Similarity, SimilarityImage, SimilarityPlane,
};
use crate::squared_error::{lemma_rms_value_bounds, rms_value, root_mean_squared_error_simple};
use crate::ssim::{lemma_ssim_identity_of_image, ssim_plane_value, ssim_simple};
use crate::CompareError;
use vstd::arithmetic::div_mod::lemma_fundamental_div_mod_converse;
use vstd::prelude::*;

verus! {

/// A similarity held within zero and one.
pub open spec fn unit(v: int) -> int {
    clamp(v, 0, SCALE as int)
}

/// How alike two colours are by their two chroma similarities: the length
/// of the vector `(u, v)`, rounded down, and one where it is longer.
pub open spec fn color_diff(u: int, v: int) -> int {
    min2(floor_sqrt((unit(u) * unit(u) + unit(v) * unit(v)) as nat) as int, SCALE as int)
}

/// The similarity of a pixel by luma and colour: that of the two which is
/// less.
pub open spec fn deviation_yuv(y: int, u: int, v: int) -> int {
    min2(unit(y), color_diff(u, v))
}

/// How visible a pixel of the map is by the similarity of the alphas: a
/// tenth for none, one for full, and by the straight line between, rounded
/// down.
pub open spec fn alpha_visibility(a: int) -> int {
    clamp((SCALE + 9 * unit(a)) / 10, 0, SCALE as int)
}

/// The least of the similarities of a pixel by luma, colour and alpha.
pub open spec fn min_similarity(y: int, u: int, v: int, a: int) -> int {
    min2(min2(unit(y), color_diff(u, v)), unit(a))
}

/// The similarity of a pixel by luma, colour and alpha, weighed by how
/// opaque the pixel is in the two images: the least of the similarities over
/// the mean alpha `(alpha_1 + alpha_2) / (2 * 255)`, rounded down and held
/// within one; one where both images are clear there.
pub open spec fn deviation_yuva(y: int, u: int, v: int, a: int, alpha_1: u8, alpha_2: u8) -> int {
    if alpha_1 + alpha_2 > 0 {
        clamp(min_similarity(y, u, v, a) * 510 / (alpha_1 + alpha_2), 0, SCALE as int)
    } else {
        SCALE as int
    }
}

/// The sum of `f` over the first `k` pixels of a grid `width` wide, row
/// after row.
pub open spec fn pixel_sum(f: spec_fn(int, int) -> int, width: int, k: int) -> int
    decreases k,
{
    if k <= 0 {
        0
    } else {
        pixel_sum(f, width, k - 1) + f((k - 1) % width, (k - 1) / width)
    }
}

/// The mean of `f` over the pixels of a grid, rounded down.
pub open spec fn pixel_mean(f: spec_fn(int, int) -> int, width: int, height: int) -> int {
    pixel_sum(f, width, width * height) / (width * height)
}

/// Two functions that agree on the pixels of a grid have one sum.
pub proof fn lemma_pixel_sum_agrees(
    f: spec_fn(int, int) -> int,
    g: spec_fn(int, int) -> int,
    width: int,
    height: int,
    k: int,
)
    requires
        width >= 1,
        0 <= k <= width * height,
        forall|x: int, y: int| 0 <= x < width && 0 <= y < height ==> #[trigger] f(x, y) == g(x, y),
    ensures
        pixel_sum(f, width, k) == pixel_sum(g, width, k),
    decreases k,
{
    if k > 0 {
        lemma_pixel_sum_agrees(f, g, width, height, k - 1);
        lemma_pixel_of_index(k - 1, width, height);
    }
}

/// A sum of values between zero and one over `k` pixels is between zero
/// and `k`.
pub proof fn lemma_pixel_sum_bounds(f: spec_fn(int, int) -> int, width: int, height: int, k: int)
    requires
        width >= 1,
        0 <= k <= width * height,
        forall|x: int, y: int|
            0 <= x < width && 0 <= y < height ==> 0 <= #[trigger] f(x, y) <= SCALE,
    ensures
        0 <= pixel_sum(f, width, k) <= k * SCALE,
    decreases k,
{
    if k > 0 {
        lemma_pixel_sum_bounds(f, width, height, k - 1);
        lemma_pixel_of_index(k - 1, width, height);
        assert(k * SCALE == (k - 1) * SCALE + SCALE) by (nonlinear_arith);
    }
}

/// What the parts of a pixel's similarity are bounded by.
pub proof fn lemma_deviation_bounds(y: int, u: int, v: int, a: int, alpha_1: u8, alpha_2: u8)
    ensures
        0 <= unit(y) <= SCALE,
        0 <= color_diff(u, v) <= SCALE,
        unit(u) <= color_diff(u, v),
        unit(v) <= color_diff(u, v),
        0 <= deviation_yuv(y, u, v) <= SCALE,
        0 <= min_similarity(y, u, v, a) <= SCALE,
        0 <= deviation_yuva(y, u, v, a, alpha_1, alpha_2) <= SCALE,
        0 <= unit(u) * unit(u) + unit(v) * unit(v) <= 2 * (SCALE * SCALE),
{
    let p = unit(u);
    let q = unit(v);
    let s = p * p + q * q;
    assert(0 <= p * p <= SCALE * SCALE && 0 <= q * q <= SCALE * SCALE) by (nonlinear_arith)
        requires
            0 <= p <= SCALE,
            0 <= q <= SCALE,
    ;
    lemma_floor_sqrt(s as nat);
    let r = floor_sqrt(s as nat) as int;
    assert(p <= r && q <= r) by (nonlinear_arith)
        requires
            s == p * p + q * q,
            s < (r + 1) * (r + 1),
            0 <= p,
            0 <= q,
            0 <= r,
    ;
}

/// The similarity of a pixel by luma and colour is that of the two which is
/// less: no more than the luma similarity, and no more than the colour
/// similarity. The colour similarity is no less than either chroma
/// similarity, so the similarity of the pixel is no less than the least of
/// the three that went in.
pub proof fn lemma_hybrid_conjunction(y: int, u: int, v: int)
    ensures
        deviation_yuv(y, u, v) <= unit(y),
        deviation_yuv(y, u, v) <= color_diff(u, v),
        deviation_yuv(y, u, v) == unit(y) || deviation_yuv(y, u, v) == color_diff(u, v),
        deviation_yuv(y, u, v) >= min2(unit(y), min2(unit(u), unit(v))),
{
    lemma_deviation_bounds(y, u, v, 0, 0, 0);
}

/// With alpha, the similarity of a pixel is no less than the least of its
/// similarities by luma, colour and alpha: the less opaque the pixel, the
/// less a difference counts. It is that least similarity, and so no more than
/// any of the three, where the division by the mean alpha changes nothing:
/// where all three are one, or where the pixel is opaque enough for the
/// least of them, as it is wherever both images are fully opaque.
pub proof fn lemma_hybrid_conjunction_alpha(
    y: int,
    u: int,
    v: int,
    a: int,
    alpha_1: u8,
    alpha_2: u8,
)
    ensures
        deviation_yuva(y, u, v, a, alpha_1, alpha_2) >= min_similarity(y, u, v, a),
        deviation_yuva(y, u, v, a, alpha_1, alpha_2) <= min_similarity(y, u, v, a) <==> (
        min_similarity(y, u, v, a) == SCALE || (alpha_1 + alpha_2 > 0 && min_similarity(y, u, v, a)
            * (510 - (alpha_1 + alpha_2)) < alpha_1 + alpha_2)),
        alpha_1 == 255 && alpha_2 == 255 ==> deviation_yuva(y, u, v, a, alpha_1, alpha_2)
            == min_similarity(y, u, v, a),
        min_similarity(y, u, v, a) <= unit(y),
        min_similarity(y, u, v, a) <= color_diff(u, v),
        min_similarity(y, u, v, a) <= unit(a),
{
    lemma_deviation_bounds(y, u, v, a, alpha_1, alpha_2);
    let m = min_similarity(y, u, v, a);
    let s = alpha_1 + alpha_2;
    if s > 0 {
        let q = m * 510 / s;
        assert(q >= m && (q <= m <==> m * (510 - s) < s) && (s == 510 ==> q == m))
            by (nonlinear_arith)
            requires
                q == m * 510 / s,
                0 < s <= 510,
                m >= 0,
        ;
    }
}

/// The visibility of a pixel of the map is at least a tenth, and is one
/// where the alphas are fully alike and nowhere else.
pub proof fn lemma_alpha_floor(a: int)
    ensures
        SCALE / 10 <= alpha_visibility(a) <= SCALE,
        alpha_visibility(a) == SCALE <==> unit(a) == SCALE,
{
    let t = unit(a);
    assert(SCALE / 10 <= (SCALE + 9 * t) / 10 <= SCALE && ((SCALE + 9 * t) / 10 == SCALE <==> t
        == SCALE)) by (nonlinear_arith)
        requires
            0 <= t <= SCALE,
            SCALE == 1_000_000_000,
    ;
}

fn unit_of(v: i64) -> (r: i64)
    ensures
        r == unit(v as int),
{
    if v < 0 {
        0
    } else if v > SCALE {
        SCALE
    } else {
        v
    }
}

fn color_diff_of(u: i64, v: i64) -> (r: i64)
    requires
        0 <= u <= SCALE,
        0 <= v <= SCALE,
    ensures
        r == color_diff(u as int, v as int),
        0 <= r <= SCALE,
{
    proof {
        lemma_deviation_bounds(0, u as int, v as int, 0, 0, 0);
        assert(2 * (SCALE * SCALE) <= u64::MAX) by (nonlinear_arith)
            requires
                SCALE == 1_000_000_000,
        ;
        assert(u * u <= SCALE * SCALE && v * v <= SCALE * SCALE) by (nonlinear_arith)
            requires
                0 <= u <= SCALE,
                0 <= v <= SCALE,
        ;
    }
    let p: u64 = u as u64;
    let q: u64 = v as u64;
    let length: u64 = isqrt(p * p + q * q);
    if length < SCALE as u64 {
        length as i64
    } else {
        SCALE
    }
}

/// Brings the similarity planes of luma and of the two chromas together.
///
/// The map holds, for each pixel, one minus each of the three similarities,
/// held within zero and one; the score is the mean over the pixels of
/// `deviation_yuv`, rounded down.
pub fn merge_similarity_channels_yuv(input: &[SimilarityPlane; 3]) -> (sim: Similarity)
    requires
        forall|c: int|
            0 <= c < 3 ==> {
                &&& (#[trigger] input[c]).wf()
                &&& input[c].channels == 1
                &&& input[c].width == input[0].width
                &&& input[c].height == input[0].height
            },
        input[0].width >= 1,
        input[0].height >= 1,
    ensures
        sim.score == pixel_mean(
            |x: int, y: int|
                deviation_yuv(
                    input[0].value(x, y, 0),
                    input[1].value(x, y, 0),
                    input[2].value(x, y, 0),
                ),
            input[0].width as int,
            input[0].height as int,
        ),
        0 <= sim.score <= SCALE,
        sim.image matches Some(SimilarityImage::RGB(plane)) && {
            &&& plane.wf()
            &&& plane.channels == 3
            &&& plane.width == input[0].width
            &&& plane.height == input[0].height
            &&& forall|x: int, y: int, c: int|
                0 <= x < plane.width && 0 <= y < plane.height && 0 <= c < 3
                    ==> #[trigger] plane.value(x, y, c) == SCALE - unit(input[c].value(x, y, 0))
        },
{
    let width: u32 = input[0].width;
    let height: u32 = input[0].height;
    let ghost w = width as int;
    let ghost h = height as int;
    let ghost f = |x: int, y: int|
        deviation_yuv(input[0].value(x, y, 0), input[1].value(x, y, 0), input[2].value(x, y, 0));
    let count: usize = input[0].data.len();
    let mut data: Vec<i64> = Vec::new();
    let mut total: u128 = 0;
    let mut k: usize = 0;
    proof {
        assert(input[0].wf() && input[1].wf() && input[2].wf());
        assert(w * h * 1 == w * h) by (nonlinear_arith);
        assert(w * h >= 1) by (nonlinear_arith)
            requires
                w >= 1,
                h >= 1,
        ;
        assert forall|x: int, y: int| 0 <= x < w && 0 <= y < h implies 0 <= #[trigger] f(x, y)
            <= SCALE by {
            lemma_deviation_bounds(
                input[0].value(x, y, 0),
                input[1].value(x, y, 0),
                input[2].value(x, y, 0),
                0,
                0,
                0,
            );
        }
    }
    while k < count
        invariant
            w == width,
            h == height,
            w >= 1,
            count == w * h,
            k <= count,
            input[0].width == w,
            input[1].width == w,
            input[2].width == w,
            input[0].channels == 1,
            input[1].channels == 1,
            input[2].channels == 1,
            input[0].data@.len() == count,
            input[1].data@.len() == count,
            input[2].data@.len() == count,
            f == |x: int, y: int|
                deviation_yuv(
                    input[0].value(x, y, 0),
                    input[1].value(x, y, 0),
                    input[2].value(x, y, 0),
                ),
            forall|x: int, y: int| 0 <= x < w && 0 <= y < h ==> 0 <= #[trigger] f(x, y) <= SCALE,
            total == pixel_sum(f, w, k as int),
            data@.len() == 3 * k,
            forall|i: int|
                0 <= i < k ==> {
                    &&& #[trigger] data@[3 * i] == SCALE - unit(input[0].data@[i] as int)
                    &&& data@[3 * i + 1] == SCALE - unit(input[1].data@[i] as int)
                    &&& data@[3 * i + 2] == SCALE - unit(input[2].data@[i] as int)
                },
        decreases count - k,
    {
        let y: i64 = unit_of(input[0].data[k]);
        let u: i64 = unit_of(input[1].data[k]);
        let v: i64 = unit_of(input[2].data[k]);
        let similar: i64 = color_diff_of(u, v);
        let deviation: i64 = if y <= similar {
            y
        } else {
            similar
        };
        proof {
            lemma_pixel_of_index(k as int, w, h);
            let px = k as int % w;
            let py = k as int / w;
            assert((py * w + px) * 1 + 0 == k) by (nonlinear_arith)
                requires
                    py * w + px == k,
            ;
            assert(input[0].value(px, py, 0) == input[0].data@[k as int]);
            assert(input[1].value(px, py, 0) == input[1].data@[k as int]);
            assert(input[2].value(px, py, 0) == input[2].data@[k as int]);
            assert(f(px, py) == deviation);
            lemma_pixel_sum_bounds(f, w, h, k as int);
            assert(k * SCALE + SCALE <= u128::MAX) by (nonlinear_arith)
                requires
                    k <= u64::MAX,
                    SCALE == 1_000_000_000,
            ;
        }
        total = total + deviation as u128;
        let ghost before = data@;
        data.push(SCALE - y);
        data.push(SCALE - u);
        data.push(SCALE - v);
        proof {
            assert forall|i: int| 0 <= i < k + 1 implies {
                &&& #[trigger] data@[3 * i] == SCALE - unit(input[0].data@[i] as int)
                &&& data@[3 * i + 1] == SCALE - unit(input[1].data@[i] as int)
                &&& data@[3 * i + 2] == SCALE - unit(input[2].data@[i] as int)
            } by {
                if i < k {
                    assert(data@[3 * i] == before[3 * i]);
                    assert(data@[3 * i + 1] == before[3 * i + 1]);
                    assert(data@[3 * i + 2] == before[3 * i + 2]);
                }
            }
        }
        k = k + 1;
    }
    proof {
        lemma_pixel_sum_bounds(f, w, h, count as int);
        assert(0 <= total / (count as u128) <= SCALE) by (nonlinear_arith)
            requires
                0 <= total <= count * SCALE,
                count >= 1,
        ;
    }
    let score: i64 = (total / count as u128) as i64;
    let plane = SimilarityPlane { width, height, channels: 3, data };
    proof {
        assert(w * h * 3 == 3 * (w * h)) by (nonlinear_arith);
        assert forall|x: int, y: int, c: int|
            0 <= x < w && 0 <= y < h && 0 <= c < 3 implies #[trigger] plane.value(x, y, c) == SCALE
            - unit(input[c].value(x, y, 0)) by {
            lemma_pixel_index(x, y, w, h);
            let i = y * w + x;
            assert(data@[3 * i] == SCALE - unit(input[0].data@[i] as int));
            assert(i * 3 == 3 * i && i * 1 + 0 == i) by (nonlinear_arith);
        }
    }
    Similarity { image: Some(SimilarityImage::RGB(plane)), score }
}

fn alpha_visibility_of(a: i64) -> (r: i64)
    requires
        0 <= a <= SCALE,
    ensures
        r == alpha_visibility(a as int),
        SCALE / 10 <= r <= SCALE,
{
    proof {
        lemma_alpha_floor(a as int);
    }
    unit_of((SCALE + 9 * a) / 10)
}

fn deviation_yuva_of(lowest: i64, alpha_1: u8, alpha_2: u8) -> (r: i64)
    requires
        0 <= lowest <= SCALE,
    ensures
        r == (if alpha_1 + alpha_2 > 0 {
            clamp(lowest * 510 / (alpha_1 + alpha_2), 0, SCALE as int)
        } else {
            SCALE as int
        }),
        0 <= r <= SCALE,
{
    let both: i64 = alpha_1 as i64 + alpha_2 as i64;
    if both > 0 {
        assert(0 <= lowest * 510 <= 510_000_000_000) by (nonlinear_arith)
            requires
                0 <= lowest <= SCALE,
                SCALE == 1_000_000_000,
        ;
        unit_of(lowest * 510 / both)
    } else {
        SCALE
    }
}

/// Brings the similarity planes of luma, of the two chromas and of alpha
/// together, with the alpha channels of the two images.
///
/// The map holds, for each pixel, one minus each of the first three
/// similarities, held within zero and one, and `alpha_visibility` of the
/// fourth; the score is the mean over the pixels of `deviation_yuva`,
/// rounded down.
pub fn merge_similarity_channels_yuva(
    input: &[SimilarityPlane; 4],
    alpha: &GrayImage,
    alpha_second: &GrayImage,
) -> (sim: Similarity)
    requires
        forall|c: int|
            0 <= c < 4 ==> {
                &&& (#[trigger] input[c]).wf()
                &&& input[c].channels == 1
                &&& input[c].width == input[0].width
                &&& input[c].height == input[0].height
            },
        input[0].width >= 1,
        input[0].height >= 1,
        gray_width(*alpha) == input[0].width,
        gray_height(*alpha) == input[0].height,
        gray_width(*alpha_second) == input[0].width,
        gray_height(*alpha_second) == input[0].height,
    ensures
        sim.score == pixel_mean(
            |x: int, y: int|
                deviation_yuva(
                    input[0].value(x, y, 0),
                    input[1].value(x, y, 0),
                    input[2].value(x, y, 0),
                    input[3].value(x, y, 0),
                    alpha@.at(x, y),
                    alpha_second@.at(x, y),
                ),
            input[0].width as int,
            input[0].height as int,
        ),
        0 <= sim.score <= SCALE,
        sim.image matches Some(SimilarityImage::RGBA(plane)) && {
            &&& plane.wf()
            &&& plane.channels == 4
            &&& plane.width == input[0].width
            &&& plane.height == input[0].height
            &&& forall|x: int, y: int, c: int|
                0 <= x < plane.width && 0 <= y < plane.height && 0 <= c < 3
                    ==> #[trigger] plane.value(x, y, c) == SCALE - unit(input[c].value(x, y, 0))
            &&& forall|x: int, y: int|
                0 <= x < plane.width && 0 <= y < plane.height ==> #[trigger] plane.value(x, y, 3)
                    == alpha_visibility(input[3].value(x, y, 0))
        },
{
    let width: u32 = input[0].width;
    let height: u32 = input[0].height;
    let ghost w = width as int;
    let ghost h = height as int;
    let ghost f = |x: int, y: int|
        deviation_yuva(
            input[0].value(x, y, 0),
            input[1].value(x, y, 0),
            input[2].value(x, y, 0),
            input[3].value(x, y, 0),
            alpha@.at(x, y),
            alpha_second@.at(x, y),
        );
    let count: usize = input[0].data.len();
    let mut data: Vec<i64> = Vec::new();
    let mut total: u128 = 0;
    let mut k: usize = 0;
    proof {
        assert(input[0].wf() && input[1].wf() && input[2].wf() && input[3].wf());
        assert(w * h * 1 == w * h) by (nonlinear_arith);
        assert(w * h >= 1) by (nonlinear_arith)
            requires
                w >= 1,
                h >= 1,
        ;
        assert forall|x: int, y: int| 0 <= x < w && 0 <= y < h implies 0 <= #[trigger] f(x, y)
            <= SCALE by {
            lemma_deviation_bounds(
                input[0].value(x, y, 0),
                input[1].value(x, y, 0),
                input[2].value(x, y, 0),
                input[3].value(x, y, 0),
                alpha@.at(x, y),
                alpha_second@.at(x, y),
            );
        }
    }
    let mut y: u32 = 0;
    while y < height
        invariant
            w == width,
            h == height,
            w >= 1,
            count == w * h,
            0 <= y <= height,
            k == y * w,
            gray_width(*alpha) == w,
            gray_height(*alpha) == h,
            gray_width(*alpha_second) == w,
            gray_height(*alpha_second) == h,
            input[0].width == w,
            input[1].width == w,
            input[2].width == w,
            input[3].width == w,
            input[0].channels == 1,
            input[1].channels == 1,
            input[2].channels == 1,
            input[3].channels == 1,
            input[0].data@.len() == count,
            input[1].data@.len() == count,
            input[2].data@.len() == count,
            input[3].data@.len() == count,
            f == |x: int, y: int|
                deviation_yuva(
                    input[0].value(x, y, 0),
                    input[1].value(x, y, 0),
                    input[2].value(x, y, 0),
                    input[3].value(x, y, 0),
                    alpha@.at(x, y),
                    alpha_second@.at(x, y),
                ),
            forall|x: int, y: int| 0 <= x < w && 0 <= y < h ==> 0 <= #[trigger] f(x, y) <= SCALE,
            total == pixel_sum(f, w, k as int),
            data@.len() == 4 * k,
            forall|i: int|
                0 <= i < k ==> {
                    &&& #[trigger] data@[4 * i] == SCALE - unit(input[0].data@[i] as int)
                    &&& data@[4 * i + 1] == SCALE - unit(input[1].data@[i] as int)
                    &&& data@[4 * i + 2] == SCALE - unit(input[2].data@[i] as int)
                    &&& data@[4 * i + 3] == alpha_visibility(input[3].data@[i] as int)
                },
        decreases height - y,
    {
        let mut x: u32 = 0;
        while x < width
            invariant
                w == width,
                h == height,
                w >= 1,
                count == w * h,
                0 <= y < height,
                0 <= x <= width,
                k == y * w + x,
                gray_width(*alpha) == w,
                gray_height(*alpha) == h,
                gray_width(*alpha_second) == w,
                gray_height(*alpha_second) == h,
                input[0].width == w,
                input[1].width == w,
                input[2].width == w,
                input[3].width == w,
                input[0].channels == 1,
                input[1].channels == 1,
                input[2].channels == 1,
                input[3].channels == 1,
                input[0].data@.len() == count,
                input[1].data@.len() == count,
                input[2].data@.len() == count,
                input[3].data@.len() == count,
                f == |x: int, y: int|
                    deviation_yuva(
                        input[0].value(x, y, 0),
                        input[1].value(x, y, 0),
                        input[2].value(x, y, 0),
                        input[3].value(x, y, 0),
                        alpha@.at(x, y),
                        alpha_second@.at(x, y),
                    ),
                forall|x: int, y: int|
                    0 <= x < w && 0 <= y < h ==> 0 <= #[trigger] f(x, y) <= SCALE,
                total == pixel_sum(f, w, k as int),
                data@.len() == 4 * k,
                forall|i: int|
                    0 <= i < k ==> {
                        &&& #[trigger] data@[4 * i] == SCALE - unit(input[0].data@[i] as int)
                        &&& data@[4 * i + 1] == SCALE - unit(input[1].data@[i] as int)
                        &&& data@[4 * i + 2] == SCALE - unit(input[2].data@[i] as int)
                        &&& data@[4 * i + 3] == alpha_visibility(input[3].data@[i] as int)
                    },
            decreases width - x,
        {
            proof {
                lemma_pixel_index(x as int, y as int, w, h);
            }
            let luma: i64 = unit_of(input[0].data[k]);
            let u: i64 = unit_of(input[1].data[k]);
            let v: i64 = unit_of(input[2].data[k]);
            let a: i64 = unit_of(input[3].data[k]);
            let similar: i64 = color_diff_of(u, v);
            let mut lowest: i64 = if luma <= similar {
                luma
            } else {
                similar
            };
            if a < lowest {
                lowest = a;
            }
            let alpha_1: u8 = alpha.get_pixel(x, y);
            let alpha_2: u8 = alpha_second.get_pixel(x, y);
            let deviation: i64 = deviation_yuva_of(lowest, alpha_1, alpha_2);
            let visible: i64 = alpha_visibility_of(a);
            proof {
                lemma_fundamental_div_mod_converse(k as int, w, y as int, x as int);
                let px = x as int;
                let py = y as int;
                assert((py * w + px) * 1 + 0 == k) by (nonlinear_arith)
                    requires
                        py * w + px == k,
                ;
                assert(input[0].value(px, py, 0) == input[0].data@[k as int]);
                assert(input[1].value(px, py, 0) == input[1].data@[k as int]);
                assert(input[2].value(px, py, 0) == input[2].data@[k as int]);
                assert(input[3].value(px, py, 0) == input[3].data@[k as int]);
                assert(alpha@.at(px, py) == alpha_1);
                assert(alpha_second@.at(px, py) == alpha_2);
                assert(f(px, py) == deviation);
                lemma_pixel_sum_bounds(f, w, h, k as int);
                assert(k * SCALE + SCALE <= u128::MAX) by (nonlinear_arith)
                    requires
                        k <= u64::MAX,
                        SCALE == 1_000_000_000,
                ;
            }
            total = total + deviation as u128;
            let ghost before = data@;
            data.push(SCALE - luma);
            data.push(SCALE - u);
            data.push(SCALE - v);
            data.push(visible);
            proof {
                assert forall|i: int| 0 <= i < k + 1 implies {
                    &&& #[trigger] data@[4 * i] == SCALE - unit(input[0].data@[i] as int)
                    &&& data@[4 * i + 1] == SCALE - unit(input[1].data@[i] as int)
                    &&& data@[4 * i + 2] == SCALE - unit(input[2].data@[i] as int)
                    &&& data@[4 * i + 3] == alpha_visibility(input[3].data@[i] as int)
                } by {
                    if i < k {
                        assert(data@[4 * i] == before[4 * i]);
                        assert(data@[4 * i + 1] == before[4 * i + 1]);
                        assert(data@[4 * i + 2] == before[4 * i + 2]);
                        assert(data@[4 * i + 3] == before[4 * i + 3]);
                    }
                }
            }
            k = k + 1;
            x = x + 1;
        }
        proof {
            assert((y + 1) * w == y * w + w) by (nonlinear_arith);
        }
        y = y + 1;
    }
    proof {
        assert(height * w == w * h) by (nonlinear_arith)
            requires
                h == height,
        ;
        lemma_pixel_sum_bounds(f, w, h, count as int);
        assert(0 <= total / (count as u128) <= SCALE) by (nonlinear_arith)
            requires
                0 <= total <= count * SCALE,
                count >= 1,
        ;
    }
    let score: i64 = (total / count as u128) as i64;
    let plane = SimilarityPlane { width, height, channels: 4, data };
    proof {
        assert(w * h * 4 == 4 * (w * h)) by (nonlinear_arith);
        assert forall|x: int, y: int, c: int|
            0 <= x < w && 0 <= y < h && 0 <= c < 3 implies #[trigger] plane.value(x, y, c) == SCALE
            - unit(input[c].value(x, y, 0)) by {
            lemma_pixel_index(x, y, w, h);
            let i = y * w + x;
            assert(data@[4 * i] == SCALE - unit(input[0].data@[i] as int));
            assert(i * 4 == 4 * i && i * 1 + 0 == i) by (nonlinear_arith);
        }
        assert forall|x: int, y: int| 0 <= x < w && 0 <= y < h implies #[trigger] plane.value(
            x,
            y,
            3,
        ) == alpha_visibility(input[3].value(x, y, 0)) by {
            lemma_pixel_index(x, y, w, h);
            let i = y * w + x;
            assert(data@[4 * i] == SCALE - unit(input[0].data@[i] as int));
            assert(i * 4 == 4 * i && i * 1 + 0 == i) by (nonlinear_arith);
        }
    }
    Similarity { image: Some(SimilarityImage::RGBA(plane)), score }
}

/// The structural similarity of the lumas of two colour images at the pixel
/// `(x, y)`; `a` and `b` hold `stride` samples for each pixel.
pub open spec fn luma_similarity(
    width: nat,
    height: nat,
    a: Seq<u8>,
    b: Seq<u8>,
    stride: int,
    x: int,
    y: int,
) -> int {
    ssim_plane_value(
        luma_raster(width, height, a, stride),
        luma_raster(width, height, b, stride),
        x,
        y,
    )
}

/// How close the blue chromas of two colour images are at the pixel
/// `(x, y)`.
pub open spec fn chroma_u_similarity(
    width: nat,
    height: nat,
    a: Seq<u8>,
    b: Seq<u8>,
    stride: int,
    x: int,
    y: int,
) -> int {
    rms_value(
        chroma_u_raster(width, height, a, stride).at(x, y),
        chroma_u_raster(width, height, b, stride).at(x, y),
    )
}

/// How close the red chromas of two colour images are at the pixel `(x, y)`.
pub open spec fn chroma_v_similarity(
    width: nat,
    height: nat,
    a: Seq<u8>,
    b: Seq<u8>,
    stride: int,
    x: int,
    y: int,
) -> int {
    rms_value(
        chroma_v_raster(width, height, a, stride).at(x, y),
        chroma_v_raster(width, height, b, stride).at(x, y),
    )
}

/// How close the alphas of two images with alpha are at the pixel `(x, y)`.
pub open spec fn alpha_similarity(
    width: nat,
    height: nat,
    a: Seq<u8>,
    b: Seq<u8>,
    x: int,
    y: int,
) -> int {
    rms_value(
        plain_raster(width, height, a, 4, 3).at(x, y),
        plain_raster(width, height, b, 4, 3).at(x, y),
    )
}

/// The score of the hybrid comparison of two colour images of `width` by
/// `height` with the samples `a` and `b`, three to a pixel: the mean over the
/// pixels of the lesser of luma similarity and colour similarity.
pub open spec fn rgb_hybrid_score(width: nat, height: nat, a: Seq<u8>, b: Seq<u8>) -> int {
    pixel_mean(
        |x: int, y: int|
            deviation_yuv(
                luma_similarity(width, height, a, b, 3, x, y),
                chroma_u_similarity(width, height, a, b, 3, x, y),
                chroma_v_similarity(width, height, a, b, 3, x, y),
            ),
        width as int,
        height as int,
    )
}

/// Value `c` of the map of the hybrid comparison of two colour images at
/// the pixel `(x, y)`: one minus the similarity of luma, of blue chroma or
/// of red chroma.
pub open spec fn rgb_hybrid_value(
    width: nat,
    height: nat,
    a: Seq<u8>,
    b: Seq<u8>,
    stride: int,
    x: int,
    y: int,
    c: int,
) -> int {
    if c == 0 {
        SCALE - unit(luma_similarity(width, height, a, b, stride, x, y))
    } else if c == 1 {
        SCALE - unit(chroma_u_similarity(width, height, a, b, stride, x, y))
    } else {
        SCALE - unit(chroma_v_similarity(width, height, a, b, stride, x, y))
    }
}

/// The score of the hybrid comparison of two images with alpha, of `width`
/// by `height` with the samples `a` and `b`, four to a pixel: the mean over
/// the pixels of `deviation_yuva`.
pub open spec fn rgba_hybrid_score(width: nat, height: nat, a: Seq<u8>, b: Seq<u8>) -> int {
    pixel_mean(
        |x: int, y: int|
            deviation_yuva(
                luma_similarity(width, height, a, b, 4, x, y),
                chroma_u_similarity(width, height, a, b, 4, x, y),
                chroma_v_similarity(width, height, a, b, 4, x, y),
                alpha_similarity(width, height, a, b, x, y),
                plain_raster(width, height, a, 4, 3).at(x, y),
                plain_raster(width, height, b, 4, 3).at(x, y),
            ),
        width as int,
        height as int,
    )
}

/// Compares two colour images by luma and colour.
///
/// Images of different width or height are refused, and so are images
/// without a pixel. Otherwise the lumas are compared by structure and each
/// chroma sample by sample. The map holds one minus each of the three
/// similarities: nothing where the images agree. The score is the mean over
/// the pixels of the lesser of luma similarity and colour similarity.
pub fn rgb_hybrid_compare(first: &RgbImage, second: &RgbImage) -> (r: Result<
    Similarity,
    CompareError,
>)
    ensures
        r matches Err(CompareError::DimensionsDiffer) <==> (rgb_width(*first) != rgb_width(*second)
            || rgb_height(*first) != rgb_height(*second)),
        r matches Err(CompareError::CalculationFailed(_)) <==> (rgb_width(*first) == rgb_width(
            *second,
        ) && rgb_height(*first) == rgb_height(*second) && rgb_width(*first) * rgb_height(*first)
            == 0),
        r matches Ok(sim) ==> {
            &&& sim.score == rgb_hybrid_score(
                rgb_width(*first),
                rgb_height(*first),
                rgb_samples(*first),
                rgb_samples(*second),
            )
            &&& 0 <= sim.score <= SCALE
            &&& sim.image matches Some(SimilarityImage::RGB(plane))
            &&& plane.wf()
            &&& plane.channels == 3
            &&& plane.width == rgb_width(*first)
            &&& plane.height == rgb_height(*first)
            &&& forall|x: int, y: int, c: int|
                0 <= x < rgb_width(*first) && 0 <= y < rgb_height(*first) && 0 <= c < 3
                    ==> #[trigger] plane.value(x, y, c) == rgb_hybrid_value(
                    rgb_width(*first),
                    rgb_height(*first),
                    rgb_samples(*first),
                    rgb_samples(*second),
                    3,
                    x,
                    y,
                    c,
                )
        },
{
    let (width, height) = first.dimensions();
    let (other_width, other_height) = second.dimensions();
    if width != other_width || height != other_height {
        return Err(CompareError::DimensionsDiffer);
    }
    let ghost w = rgb_width(*first);
    let ghost h = rgb_height(*first);
    let ghost a = rgb_samples(*first);
    let ghost b = rgb_samples(*second);
    let first_channels = first.split_to_yuv();
    let second_channels = second.split_to_yuv();
    let mssim_result = match ssim_simple(&first_channels[0], &second_channels[0]) {
        Ok(found) => found.1,
        Err(e) => {
            return Err(e);
        },
    };
    let u_result = match root_mean_squared_error_simple(&first_channels[1], &second_channels[1]) {
        Ok(found) => found.1,
        Err(e) => {
            return Err(e);
        },
    };
    let v_result = match root_mean_squared_error_simple(&first_channels[2], &second_channels[2]) {
        Ok(found) => found.1,
        Err(e) => {
            return Err(e);
        },
    };
    assert(w >= 1 && h >= 1) by (nonlinear_arith)
        requires
            w * h != 0,
            w >= 0,
            h >= 0,
    ;
    let results = [mssim_result, u_result, v_result];
    assert(results[0] == mssim_result && results[1] == u_result && results[2] == v_result);
    let sim = merge_similarity_channels_yuv(&results);
    proof {
        let f = |x: int, y: int|
            deviation_yuv(
                results[0].value(x, y, 0),
                results[1].value(x, y, 0),
                results[2].value(x, y, 0),
            );
        let g = |x: int, y: int|
            deviation_yuv(
                luma_similarity(w, h, a, b, 3, x, y),
                chroma_u_similarity(w, h, a, b, 3, x, y),
                chroma_v_similarity(w, h, a, b, 3, x, y),
            );
        assert forall|x: int, y: int| 0 <= x < w && 0 <= y < h implies #[trigger] f(x, y) == g(
            x,
            y,
        ) by {
            assert(mssim_result.value(x, y, 0) == luma_similarity(w, h, a, b, 3, x, y));
            assert(u_result.value(x, y, 0) == chroma_u_similarity(w, h, a, b, 3, x, y));
            assert(v_result.value(x, y, 0) == chroma_v_similarity(w, h, a, b, 3, x, y));
        }
        lemma_pixel_sum_agrees(f, g, w as int, h as int, (w * h) as int);
    }
    Ok(sim)
}

/// The sum of one and the same value over `k` pixels is `k` times the value.
pub proof fn lemma_pixel_sum_constant(
    f: spec_fn(int, int) -> int,
    value: int,
    width: int,
    height: int,
    k: int,
)
    requires
        width >= 1,
        0 <= k <= width * height,
        forall|x: int, y: int| 0 <= x < width && 0 <= y < height ==> #[trigger] f(x, y) == value,
    ensures
        pixel_sum(f, width, k) == k * value,
    decreases k,
{
    if k > 0 {
        lemma_pixel_sum_constant(f, value, width, height, k - 1);
        lemma_pixel_of_index(k - 1, width, height);
        assert(k * value == (k - 1) * value + value) by (nonlinear_arith);
    } else {
        assert(0 * value == 0) by (nonlinear_arith);
    }
}

/// A colour image that has a pixel is as similar to itself as can be: the
/// score of the hybrid comparison is one, and the map is nothing everywhere.
pub proof fn lemma_rgb_hybrid_identity(width: nat, height: nat, a: Seq<u8>)
    requires
        1 <= width <= u32::MAX,
        1 <= height <= u32::MAX,
    ensures
        rgb_hybrid_score(width, height, a, a) == SCALE,
        forall|x: int, y: int, c: int|
            0 <= x < width && 0 <= y < height && 0 <= c < 3 ==> #[trigger] rgb_hybrid_value(
                width,
                height,
                a,
                a,
                3,
                x,
                y,
                c,
            ) == 0,
{
    let f = |x: int, y: int|
        deviation_yuv(
            luma_similarity(width, height, a, a, 3, x, y),
            chroma_u_similarity(width, height, a, a, 3, x, y),
            chroma_v_similarity(width, height, a, a, 3, x, y),
        );
    let w = width as int;
    let h = height as int;
    lemma_ssim_identity_of_image(luma_raster(width, height, a, 3));
    lemma_color_diff_of_one();
    assert forall|x: int, y: int| 0 <= x < w && 0 <= y < h implies #[trigger] f(x, y) == SCALE by {
        let u = chroma_u_raster(width, height, a, 3).at(x, y);
        let v = chroma_v_raster(width, height, a, 3).at(x, y);
        lemma_rms_value_bounds(u, u);
        lemma_rms_value_bounds(v, v);
        assert(luma_similarity(width, height, a, a, 3, x, y) == SCALE);
    }
    assert(w * h >= 1) by (nonlinear_arith)
        requires
            w >= 1,
            h >= 1,
    ;
    lemma_pixel_sum_constant(f, SCALE as int, w, h, w * h);
    assert((w * h) * SCALE / (w * h) == SCALE) by (nonlinear_arith)
        requires
            w * h >= 1,
    ;
    assert forall|x: int, y: int, c: int|
        0 <= x < width && 0 <= y < height && 0 <= c < 3 implies #[trigger] rgb_hybrid_value(
        width,
        height,
        a,
        a,
        3,
        x,
        y,
        c,
    ) == 0 by {
        let u = chroma_u_raster(width, height, a, 3).at(x, y);
        let v = chroma_v_raster(width, height, a, 3).at(x, y);
        lemma_rms_value_bounds(u, u);
        lemma_rms_value_bounds(v, v);
        assert(luma_similarity(width, height, a, a, 3, x, y) == SCALE);
    }
}

/// Two chromas that are fully alike make colours that are fully alike.
pub proof fn lemma_color_diff_of_one()
    ensures
        color_diff(SCALE as int, SCALE as int) == SCALE,
{
    let s = (SCALE * SCALE + SCALE * SCALE) as nat;
    lemma_floor_sqrt(s);
    let r = floor_sqrt(s) as int;
    assert(r >= SCALE) by (nonlinear_arith)
        requires
            s == SCALE * SCALE + SCALE * SCALE,
            s < (r + 1) * (r + 1),
            r >= 0,
            SCALE == 1_000_000_000,
    ;
}

/// Compares two images with alpha by luma, colour and alpha.
///
/// Images of different width or height are refused, and so are images
/// without a pixel. Otherwise the lumas are compared by structure, each
/// chroma and the alphas sample by sample. The map holds one minus each of
/// the first three similarities and, as its fourth value, the visibility
/// that follows from the similarity of the alphas. The score is the mean
/// over the pixels of the least similarity, weighed by how opaque the pixel
/// is.
pub fn rgba_hybrid_compare(first: &RgbaImage, second: &RgbaImage) -> (r: Result<
    Similarity,
    CompareError,
>)
    ensures
        r matches Err(CompareError::DimensionsDiffer) <==> (rgba_width(*first) != rgba_width(
            *second,
        ) || rgba_height(*first) != rgba_height(*second)),
        r matches Err(CompareError::CalculationFailed(_)) <==> (rgba_width(*first) == rgba_width(
            *second,
        ) && rgba_height(*first) == rgba_height(*second) && rgba_width(*first) * rgba_height(
            *first,
        ) == 0),
        r matches Ok(sim) ==> {
            &&& sim.score == rgba_hybrid_score(
                rgba_width(*first),
                rgba_height(*first),
                rgba_samples(*first),
                rgba_samples(*second),
            )
            &&& 0 <= sim.score <= SCALE
            &&& sim.image matches Some(SimilarityImage::RGBA(plane))
            &&& plane.wf()
            &&& plane.channels == 4
            &&& plane.width == rgba_width(*first)
            &&& plane.height == rgba_height(*first)
            &&& forall|x: int, y: int, c: int|
                0 <= x < rgba_width(*first) && 0 <= y < rgba_height(*first) && 0 <= c < 3
                    ==> #[trigger] plane.value(x, y, c) == rgb_hybrid_value(
                    rgba_width(*first),
                    rgba_height(*first),
                    rgba_samples(*first),
                    rgba_samples(*second),
                    4,
                    x,
                    y,
                    c,
                )
            &&& forall|x: int, y: int|
                0 <= x < rgba_width(*first) && 0 <= y < rgba_height(*first)
                    ==> #[trigger] plane.value(x, y, 3) == alpha_visibility(
                    alpha_similarity(
                        rgba_width(*first),
                        rgba_height(*first),
                        rgba_samples(*first),
                        rgba_samples(*second),
                        x,
                        y,
                    ),
                )
        },
{
    let (width, height) = first.dimensions();
    let (other_width, other_height) = second.dimensions();
    if width != other_width || height != other_height {
        return Err(CompareError::DimensionsDiffer);
    }
    let ghost w = rgba_width(*first);
    let ghost h = rgba_height(*first);
    let ghost a = rgba_samples(*first);
    let ghost b = rgba_samples(*second);
    let first_channels = split_rgba_to_yuva(first);
    let second_channels = split_rgba_to_yuva(second);
    let mssim_result = match ssim_simple(&first_channels[0], &second_channels[0]) {
        Ok(found) => found.1,
        Err(e) => {
            return Err(e);
        },
    };
    let u_result = match root_mean_squared_error_simple(&first_channels[1], &second_channels[1]) {
        Ok(found) => found.1,
        Err(e) => {
            return Err(e);
        },
    };
    let v_result = match root_mean_squared_error_simple(&first_channels[2], &second_channels[2]) {
        Ok(found) => found.1,
        Err(e) => {
            return Err(e);
        },
    };
    let alpha_result = match root_mean_squared_error_simple(
        &first_channels[3],
        &second_channels[3],
    ) {
        Ok(found) => found.1,
        Err(e) => {
            return Err(e);
        },
    };
    assert(w >= 1 && h >= 1) by (nonlinear_arith)
        requires
            w * h != 0,
            w >= 0,
            h >= 0,
    ;
    let results = [mssim_result, u_result, v_result, alpha_result];
    assert(results[0] == mssim_result && results[1] == u_result && results[2] == v_result
        && results[3] == alpha_result);
    let sim = merge_similarity_channels_yuva(&results, &first_channels[3], &second_channels[3]);
    proof {
        let f = |x: int, y: int|
            deviation_yuva(
                results[0].value(x, y, 0),
                results[1].value(x, y, 0),
                results[2].value(x, y, 0),
                results[3].value(x, y, 0),
                first_channels[3]@.at(x, y),
                second_channels[3]@.at(x, y),
            );
        let g = |x: int, y: int|
            deviation_yuva(
                luma_similarity(w, h, a, b, 4, x, y),
                chroma_u_similarity(w, h, a, b, 4, x, y),
                chroma_v_similarity(w, h, a, b, 4, x, y),
                alpha_similarity(w, h, a, b, x, y),
                plain_raster(w, h, a, 4, 3).at(x, y),
                plain_raster(w, h, b, 4, 3).at(x, y),
            );
        assert forall|x: int, y: int| 0 <= x < w && 0 <= y < h implies #[trigger] f(x, y) == g(
            x,
            y,
        ) by {
            assert(mssim_result.value(x, y, 0) == luma_similarity(w, h, a, b, 4, x, y));
            assert(u_result.value(x, y, 0) == chroma_u_similarity(w, h, a, b, 4, x, y));
            assert(v_result.value(x, y, 0) == chroma_v_similarity(w, h, a, b, 4, x, y));
            assert(alpha_result.value(x, y, 0) == alpha_similarity(w, h, a, b, x, y));
        }
        lemma_pixel_sum_agrees(f, g, w as int, h as int, (w * h) as int);
    }
    Ok(sim)
}

/// An image for the blended hybrid comparison, with or without alpha.
pub enum BlendInput<'a> {
    /// The image has no alpha: it is compared as it is.
    PreBlended(&'a RgbImage),
    /// The image has alpha: it is laid over the background first.
    RGBA(&'a RgbaImage),
}

impl<'a> BlendInput<'a> {
    /// The number of pixel columns of the image.
    pub open spec fn width(&self) -> nat {
        match *self {
            BlendInput::PreBlended(image) => rgb_width(*image),
            BlendInput::RGBA(image) => rgba_width(*image),
        }
    }

    /// The number of pixel rows of the image.
    pub open spec fn height(&self) -> nat {
        match *self {
            BlendInput::PreBlended(image) => rgb_height(*image),
            BlendInput::RGBA(image) => rgba_height(*image),
        }
    }

    /// The samples that are compared: those of the image itself, or of the
    /// image over a ground of the colour `background`.
    pub open spec fn blended(&self, background: (u8, u8, u8)) -> Seq<u8> {
        match *self {
            BlendInput::PreBlended(image) => rgb_samples(*image),
            BlendInput::RGBA(image) => blended_samples(
                rgba_samples(*image),
                rgba_width(*image) * rgba_height(*image),
                background,
            ),
        }
    }
}

impl<'a> From<&'a RgbImage> for BlendInput<'a> {
    fn from(value: &'a RgbImage) -> (r: Self) {
        BlendInput::PreBlended(value)
    }
}

impl<'a> vstd::std_specs::convert::FromSpecImpl<&'a RgbImage> for BlendInput<'a> {
    open spec fn obeys_from_spec() -> bool {
        true
    }

    open spec fn from_spec(value: &'a RgbImage) -> Self {
        BlendInput::PreBlended(value)
    }
}

impl<'a> From<&'a RgbaImage> for BlendInput<'a> {
    fn from(value: &'a RgbaImage) -> (r: Self) {
        BlendInput::RGBA(value)
    }
}

impl<'a> vstd::std_specs::convert::FromSpecImpl<&'a RgbaImage> for BlendInput<'a> {
    open spec fn obeys_from_spec() -> bool {
        true
    }

    open spec fn from_spec(value: &'a RgbaImage) -> Self {
        BlendInput::RGBA(value)
    }
}

/// Compares two images by luma and colour as `rgb_hybrid_compare` does,
/// after those that have alpha were laid over a ground of the colour
/// `background`.
pub fn rgba_blended_hybrid_compare(
    first: BlendInput,
    second: BlendInput,
    background: (u8, u8, u8),
) -> (r: Result<Similarity, CompareError>)
    ensures
        r matches Err(CompareError::DimensionsDiffer) <==> (first.width() != second.width()
            || first.height() != second.height()),
        r matches Err(CompareError::CalculationFailed(_)) <==> (first.width() == second.width()
            && first.height() == second.height() && first.width() * first.height() == 0),
        r matches Ok(sim) ==> {
            &&& sim.score == rgb_hybrid_score(
                first.width(),
                first.height(),
                first.blended(background),
                second.blended(background),
            )
            &&& 0 <= sim.score <= SCALE
            &&& sim.image matches Some(SimilarityImage::RGB(plane))
            &&& plane.wf()
            &&& plane.channels == 3
            &&& plane.width == first.width()
            &&& plane.height == first.height()
            &&& forall|x: int, y: int, c: int|
                0 <= x < first.width() && 0 <= y < first.height() && 0 <= c < 3
                    ==> #[trigger] plane.value(x, y, c) == rgb_hybrid_value(
                    first.width(),
                    first.height(),
                    first.blended(background),
                    second.blended(background),
                    3,
                    x,
                    y,
                    c,
                )
        },
{
    match first {
        BlendInput::PreBlended(one) => match second {
            BlendInput::PreBlended(other) => rgb_hybrid_compare(one, other),
            BlendInput::RGBA(other) => {
                let laid = blend_alpha(other, background);
                rgb_hybrid_compare(one, &laid)
            },
        },
        BlendInput::RGBA(one) => {
            let laid_one = blend_alpha(one, background);
            match second {
                BlendInput::PreBlended(other) => rgb_hybrid_compare(&laid_one, other),
                BlendInput::RGBA(other) => {
                    let laid = blend_alpha(other, background);
                    rgb_hybrid_compare(&laid_one, &laid)
                },
            }
        },
    }
}

} // verus!
