//! Comparison sample by sample: the closer two samples, the more alike.

use crate::fixed::{floor_sqrt, isqrt, lemma_floor_sqrt, SCALE};
use crate::images::{gray_height, gray_samples, gray_width, GrayImage};
use crate::similarity::{lemma_pixel_index, SimilarityPlane};
use crate::CompareError;
use vstd::prelude::*;

verus! {

/// The distance of two samples.
pub open spec fn abs_diff(a: u8, b: u8) -> int {
    if a >= b {
        a - b
    } else {
        b - a
    }
}

/// How close two samples are: one when they are equal, zero when they are
/// 255 apart, and in between by the straight line, rounded down.
pub open spec fn rms_value(a: u8, b: u8) -> int {
    SCALE * (255 - abs_diff(a, b)) / 255
}

/// The squared deviation of two samples from being equal.
pub open spec fn sq_dev(a: u8, b: u8) -> int {
    (SCALE - rms_value(a, b)) * (SCALE - rms_value(a, b))
}

/// The sum of the squared deviations of the first `k` samples.
pub open spec fn sq_dev_sum(a: Seq<u8>, b: Seq<u8>, k: int) -> int
    decreases k,
{
    if k <= 0 {
        0
    } else {
        sq_dev_sum(a, b, k - 1) + sq_dev(a[k - 1], b[k - 1])
    }
}

/// One minus the root of the mean squared deviation, the mean and the root
/// each rounded down.
pub open spec fn rms_score(a: Seq<u8>, b: Seq<u8>) -> int {
    SCALE - floor_sqrt((sq_dev_sum(a, b, a.len() as int) / (a.len() as int)) as nat)
}

/// The value of a pair of samples lies between zero and one, and is one for
/// equal samples alone.
pub proof fn lemma_rms_value_bounds(a: u8, b: u8)
    ensures
        0 <= rms_value(a, b) <= SCALE,
        rms_value(a, b) == SCALE <==> a == b,
        rms_value(a, b) == rms_value(b, a),
        0 <= sq_dev(a, b) <= SCALE * SCALE,
        sq_dev(a, b) == sq_dev(b, a),
        a == b ==> sq_dev(a, b) == 0,
{
    let d = abs_diff(a, b);
    let v = rms_value(a, b);
    assert(abs_diff(b, a) == d);
    assert(0 <= v <= SCALE && (v == SCALE <==> d == 0)) by (nonlinear_arith)
        requires
            0 <= d <= 255,
            v == 1_000_000_000 * (255 - d) / 255,
            SCALE == 1_000_000_000,
    ;
    let e = SCALE - v;
    assert(0 <= e * e <= SCALE * SCALE && (e == 0 ==> e * e == 0)) by (nonlinear_arith)
        requires
            0 <= e <= SCALE,
    ;
}

/// The sum of squared deviations of `k` samples is at most `k`.
pub proof fn lemma_sq_dev_sum_bounds(a: Seq<u8>, b: Seq<u8>, k: int)
    requires
        0 <= k,
    ensures
        0 <= sq_dev_sum(a, b, k) <= k * (SCALE * SCALE),
    decreases k,
{
    if k > 0 {
        lemma_sq_dev_sum_bounds(a, b, k - 1);
        lemma_rms_value_bounds(a[k - 1], b[k - 1]);
        assert(k * (SCALE * SCALE) == (k - 1) * (SCALE * SCALE) + SCALE * SCALE)
            by (nonlinear_arith);
    } else {
        assert(0 * (SCALE * SCALE) == 0) by (nonlinear_arith);
    }
}

/// The score of a pair of images that have a pixel lies between zero and one.
pub proof fn lemma_rms_score_bounds(a: Seq<u8>, b: Seq<u8>)
    requires
        a.len() > 0,
    ensures
        0 <= sq_dev_sum(a, b, a.len() as int) / (a.len() as int) <= SCALE * SCALE,
        0 <= rms_score(a, b) <= SCALE,
{
    let n = a.len() as int;
    let s = sq_dev_sum(a, b, n);
    lemma_sq_dev_sum_bounds(a, b, n);
    let m = s / n;
    assert(0 <= m <= SCALE * SCALE) by (nonlinear_arith)
        requires
            0 <= s <= n * (SCALE * SCALE),
            n > 0,
            m == s / n,
    ;
    lemma_floor_sqrt(m as nat);
    let r = floor_sqrt(m as nat);
    assert(r <= SCALE) by (nonlinear_arith)
        requires
            r * r <= m,
            m <= SCALE * SCALE,
            SCALE == 1_000_000_000,
    ;
}

/// The deviations of a sequence from itself add up to nothing, and the
/// order of the two sequences does not matter to the sum.
pub proof fn lemma_sq_dev_sum_laws(a: Seq<u8>, b: Seq<u8>, k: int)
    ensures
        sq_dev_sum(a, a, k) == 0,
        sq_dev_sum(a, b, k) == sq_dev_sum(b, a, k),
    decreases k,
{
    if k > 0 {
        lemma_sq_dev_sum_laws(a, b, k - 1);
        lemma_rms_value_bounds(a[k - 1], b[k - 1]);
        lemma_rms_value_bounds(a[k - 1], a[k - 1]);
    }
}

/// An image that has a pixel is as similar to itself as can be: the score
/// is one.
pub proof fn lemma_rms_identity(a: Seq<u8>)
    requires
        a.len() > 0,
    ensures
        rms_score(a, a) == SCALE,
{
    lemma_sq_dev_sum_laws(a, a, a.len() as int);
    assert(floor_sqrt(0) == 0);
}

/// The score does not depend on which image comes first.
pub proof fn lemma_rms_symmetric(a: Seq<u8>, b: Seq<u8>)
    requires
        a.len() == b.len(),
    ensures
        rms_score(a, b) == rms_score(b, a),
{
    lemma_sq_dev_sum_laws(a, b, a.len() as int);
}

/// Compares two grey images of one size sample by sample.
///
/// The plane holds `rms_value` for each pixel, the score is `rms_score`. Two
/// images without a pixel have no mean deviation: the comparison fails.
pub fn root_mean_squared_error_simple(first: &GrayImage, second: &GrayImage) -> (r: Result<
    (i64, SimilarityPlane),
    CompareError,
>)
    requires
        gray_width(*first) == gray_width(*second),
        gray_height(*first) == gray_height(*second),
    ensures
        r is Err <==> gray_width(*first) * gray_height(*first) == 0,
        r matches Err(e) ==> e is CalculationFailed,
        r matches Ok(found) ==> {
            &&& found.0 == rms_score(gray_samples(*first), gray_samples(*second))
            &&& 0 <= found.0 <= SCALE
            &&& found.1.wf()
            &&& found.1.channels == 1
            &&& found.1.width == gray_width(*first)
            &&& found.1.height == gray_height(*first)
            &&& forall|x: int, y: int|
                0 <= x < gray_width(*first) && 0 <= y < gray_height(*first)
                    ==> #[trigger] found.1.value(x, y, 0) == rms_value(
                    first.at(x, y),
                    second.at(x, y),
                )
        },
{
    let (width, height) = first.dimensions();
    let (width2, height2) = second.dimensions();
    if width == 0 || height == 0 {
        assert(width * height == 0) by (nonlinear_arith)
            requires
                width == 0 || height == 0,
        ;
        return Err(CompareError::CalculationFailed("the images have no pixel".to_owned()));
    }
    let ghost a = gray_samples(*first);
    let ghost b = gray_samples(*second);
    let ghost n = width as int * height as int;
    assert(n > 0) by (nonlinear_arith)
        requires
            n == width as int * height as int,
            width > 0,
            height > 0,
    ;
    let mut data: Vec<i64> = Vec::new();
    let mut sum: u128 = 0;
    let mut y: u32 = 0;
    while y < height
        invariant
            0 <= y <= height,
            width > 0,
            n == width as int * height as int,
            n <= usize::MAX,
            a == gray_samples(*first),
            b == gray_samples(*second),
            a.len() == n,
            b.len() == n,
            width == gray_width(*first),
            height == gray_height(*first),
            width == gray_width(*second),
            height == gray_height(*second),
            data@.len() == y * width,
            sum == sq_dev_sum(a, b, y * width),
            forall|k: int| 0 <= k < data@.len() ==> data@[k] == rms_value(a[k], b[k]),
        decreases height - y,
    {
        let mut x: u32 = 0;
        while x < width
            invariant
                0 <= y < height,
                0 <= x <= width,
                n == width as int * height as int,
                n <= usize::MAX,
                a == gray_samples(*first),
                b == gray_samples(*second),
                a.len() == n,
                b.len() == n,
                width == gray_width(*first),
                height == gray_height(*first),
                width == gray_width(*second),
                height == gray_height(*second),
                data@.len() == y * width + x,
                sum == sq_dev_sum(a, b, y * width + x),
                forall|k: int| 0 <= k < data@.len() ==> data@[k] == rms_value(a[k], b[k]),
            decreases width - x,
        {
            let p: u8 = first.get_pixel(x, y);
            let q: u8 = second.get_pixel(x, y);
            let d: u8 = if p >= q {
                p - q
            } else {
                q - p
            };
            proof {
                lemma_pixel_index(x as int, y as int, width as int, height as int);
                lemma_rms_value_bounds(p, q);
                lemma_sq_dev_sum_bounds(a, b, y * width + x);
                assert((y * width + x) * (SCALE * SCALE) + SCALE * SCALE <= n * (SCALE * SCALE))
                    by (nonlinear_arith)
                    requires
                        y * width + x < n,
                ;
                assert(n * (SCALE * SCALE) <= u128::MAX) by (nonlinear_arith)
                    requires
                        n <= u64::MAX,
                        SCALE == 1_000_000_000,
                ;
            }
            let value: i64 = SCALE * (255 - d as i64) / 255;
            let dev: u128 = (SCALE - value) as u128;
            sum = sum + dev * dev;
            data.push(value);
            x = x + 1;
        }
        proof {
            assert((y + 1) * width == y * width + width) by (nonlinear_arith);
        }
        y = y + 1;
    }
    proof {
        lemma_rms_score_bounds(a, b);
        assert(height * width == n) by (nonlinear_arith)
            requires
                n == width as int * height as int,
        ;
    }
    let count: u128 = width as u128 * height as u128;
    let mean: u64 = (sum / count) as u64;
    let root: u64 = isqrt(mean);
    let score: i64 = SCALE - root as i64;
    let plane = SimilarityPlane { width, height, channels: 1, data };
    proof {
        assert(width * height * 1 == n) by (nonlinear_arith)
            requires
                n == width as int * height as int,
        ;
        assert forall|x: int, y: int| 0 <= x < width && 0 <= y < height implies
            #[trigger] plane.value(
            x,
            y,
            0,
        ) == rms_value(first.at(x, y), second.at(x, y)) by {
            lemma_pixel_index(x, y, width as int, height as int);
            assert((y * width + x) * 1 + 0 == y * width + x) by (nonlinear_arith);
        }
    }
    Ok((score, plane))
}

} // verus!
