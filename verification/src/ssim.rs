//! Structural similarity: means, variances and covariance of two windows,
//! the similarity that follows from them, and the comparison of two grey
//! images tile by tile.

use crate::fixed::SCALE;
use crate::images::{gray_height, gray_width, GrayImage, Raster};
use crate::stats::{
    co_moment, dot, dot_to, is_gray, lemma_co_moment_bounds, lemma_dot_symmetric,
    lemma_sums_bounded, sum, sum_to,
};
use crate::similarity::{draw_window_to_image, SimilarityPlane};
use crate::window::{
    lemma_pixel_inside, lemma_tile_at, lemma_tiles_area, lemma_tiles_partition,
    lemma_total_area_take, total_area, Window, DEFAULT_WINDOW_SIZE,
};
use crate::CompareError;
use vstd::prelude::*;

verus! {

/// The largest window of which the statistics are taken: beyond it the
/// products of the sums no longer fit the integers they are held in.
pub const MAX_WINDOW_AREA: u64 = 2500;

/// The grey levels of `img` inside `w`, in the scan order of the window.
pub open spec fn window_values(img: Raster, w: Window) -> Seq<int> {
    Seq::new(w.spec_area() as nat, |k: int| img.at(w.pixel(k).0, w.pixel(k).1) as int)
}

/// An exact fraction with a positive denominator.
#[derive(Clone, Copy, Debug)]
pub struct Ratio {
    pub num: i128,
    pub den: i128,
}

/// The sums from which mean, variance and covariance of two windows follow.
#[derive(Clone, Copy, Debug)]
pub struct Moments {
    pub area: u64,
    pub sum_x: u64,
    pub sum_y: u64,
    pub sum_xx: u64,
    pub sum_yy: u64,
    pub sum_xy: u64,
}

impl Moments {
    /// These are the sums over `x` and `y`.
    pub open spec fn of(&self, x: Seq<int>, y: Seq<int>) -> bool {
        &&& self.area == x.len()
        &&& self.sum_x == sum(x)
        &&& self.sum_y == sum(y)
        &&& self.sum_xx == dot(x, x)
        &&& self.sum_yy == dot(y, y)
        &&& self.sum_xy == dot(x, y)
    }
}

/// The numerator of the structural similarity of `x` and `y`:
/// `(2 * mean_x * mean_y + C1) * (2 * cov_xy + C2)` with `C1 = 6.5025` and
/// `C2 = 58.5225`, each factor times `400 * n * n` to make it whole.
pub open spec fn ssim_numerator(x: Seq<int>, y: Seq<int>) -> int {
    let n = x.len() as int;
    (800 * (sum(x) * sum(y)) + 2601 * (n * n)) * (800 * co_moment(x, y) + 23409 * (n * n))
}

/// The denominator of the structural similarity of `x` and `y`:
/// `(mean_x^2 + mean_y^2 + C1) * (var_x + var_y + C2)`, each factor times
/// `400 * n * n` as in the numerator.
pub open spec fn ssim_denominator(x: Seq<int>, y: Seq<int>) -> int {
    let n = x.len() as int;
    (400 * (sum(x) * sum(x) + sum(y) * sum(y)) + 2601 * (n * n)) * (400 * (co_moment(x, x)
        + co_moment(y, y)) + 23409 * (n * n))
}

/// The quotient of `a` by a positive `b`, rounded toward zero.
pub open spec fn trunc_div(a: int, b: int) -> int {
    if a >= 0 {
        a / b
    } else {
        -((-a) / b)
    }
}

/// The structural similarity of `x` and `y`, rounded toward zero.
pub open spec fn ssim_value(x: Seq<int>, y: Seq<int>) -> int {
    trunc_div(SCALE * ssim_numerator(x, y), ssim_denominator(x, y))
}

/// The structural similarity of what two images show inside one window.
pub open spec fn ssim_of_window(first: Raster, second: Raster, w: Window) -> int {
    ssim_value(window_values(first, w), window_values(second, w))
}

/// A quotient rounded toward zero misses the exact quotient by less than
/// one, on the side of zero.
pub proof fn lemma_trunc_div_error(a: int, b: int)
    requires
        b > 0,
    ensures
        a >= 0 ==> trunc_div(a, b) * b <= a < (trunc_div(a, b) + 1) * b,
        a < 0 ==> (trunc_div(a, b) - 1) * b < a <= trunc_div(a, b) * b,
{
    if a >= 0 {
        let q = a / b;
        assert(q * b <= a < (q + 1) * b) by (nonlinear_arith)
            requires
                q == a / b,
                b > 0,
        ;
    } else {
        let q = (-a) / b;
        assert(q * b <= -a < (q + 1) * b) by (nonlinear_arith)
            requires
                q == (-a) / b,
                b > 0,
        ;
        assert((-q - 1) * b == -((q + 1) * b) && (-q) * b == -(q * b)) by (nonlinear_arith);
    }
}

/// A quotient rounded toward zero is no further from zero than the bound of
/// the numerator allows.
pub proof fn lemma_trunc_div_bounds(a: int, b: int, s: int)
    requires
        b > 0,
        s >= 0,
        -(s * b) <= a <= s * b,
    ensures
        -s <= trunc_div(a, b) <= s,
        a == s * b ==> trunc_div(a, b) == s,
{
    if a >= 0 {
        let q = a / b;
        assert(0 <= q <= s && (a == s * b ==> q == s)) by (nonlinear_arith)
            requires
                q == a / b,
                0 <= a <= s * b,
                b > 0,
        ;
    } else {
        let q = (-a) / b;
        assert(0 <= q <= s) by (nonlinear_arith)
            requires
                q == (-a) / b,
                0 <= -a <= s * b,
                b > 0,
        ;
    }
}

/// The two factors of numerator and denominator: the first of the
/// denominator is positive and no less than that of the numerator, which is
/// positive too; the second of the denominator is positive and no less than
/// that of the numerator on either side of zero.
pub proof fn lemma_ssim_factors(x: Seq<int>, y: Seq<int>)
    requires
        is_gray(x),
        is_gray(y),
        x.len() == y.len(),
        x.len() >= 1,
    ensures
        ({
            let n = x.len() as int;
            let a = 800 * (sum(x) * sum(y)) + 2601 * (n * n);
            let b = 800 * co_moment(x, y) + 23409 * (n * n);
            let c = 400 * (sum(x) * sum(x) + sum(y) * sum(y)) + 2601 * (n * n);
            let d = 400 * (co_moment(x, x) + co_moment(y, y)) + 23409 * (n * n);
            &&& 0 < a <= c
            &&& -d <= b <= d
            &&& 0 < d
            &&& ssim_numerator(x, y) == a * b
            &&& ssim_denominator(x, y) == c * d
        }),
{
    let n = x.len() as int;
    let sx = sum(x);
    let sy = sum(y);
    lemma_sums_bounded(x, y, n);
    lemma_sums_bounded(y, x, n);
    lemma_co_moment_bounds(x, y);
    assert(n * n >= 1) by (nonlinear_arith)
        requires
            n >= 1,
    ;
    assert(sx * sy >= 0) by (nonlinear_arith)
        requires
            sx >= 0,
            sy >= 0,
    ;
    assert(sx * sx + sy * sy - 2 * (sx * sy) >= 0) by (nonlinear_arith);
}

/// Structural similarity lies between minus one and one.
pub proof fn lemma_ssim_bounds(x: Seq<int>, y: Seq<int>)
    requires
        is_gray(x),
        is_gray(y),
        x.len() == y.len(),
        x.len() >= 1,
    ensures
        ssim_denominator(x, y) > 0,
        -ssim_denominator(x, y) <= ssim_numerator(x, y) <= ssim_denominator(x, y),
        -SCALE <= ssim_value(x, y) <= SCALE,
{
    let n = x.len() as int;
    let a = 800 * (sum(x) * sum(y)) + 2601 * (n * n);
    let b = 800 * co_moment(x, y) + 23409 * (n * n);
    let c = 400 * (sum(x) * sum(x) + sum(y) * sum(y)) + 2601 * (n * n);
    let d = 400 * (co_moment(x, x) + co_moment(y, y)) + 23409 * (n * n);
    lemma_ssim_factors(x, y);
    assert(c * d > 0 && -(c * d) <= a * b <= c * d) by (nonlinear_arith)
        requires
            0 < a <= c,
            -d <= b <= d,
            0 < d,
    ;
    let num = ssim_numerator(x, y);
    let den = ssim_denominator(x, y);
    assert(-(SCALE * den) <= SCALE * num <= SCALE * den) by (nonlinear_arith)
        requires
            -den <= num <= den,
            SCALE == 1_000_000_000,
    ;
    lemma_trunc_div_bounds(SCALE * num, den, SCALE as int);
}

/// What is compared with itself is as similar as can be: the value is one.
pub proof fn lemma_ssim_identity(x: Seq<int>)
    requires
        is_gray(x),
        x.len() >= 1,
    ensures
        ssim_value(x, x) == SCALE,
{
    lemma_ssim_bounds(x, x);
    lemma_ssim_factors(x, x);
    let den = ssim_denominator(x, x);
    assert(ssim_numerator(x, x) == den);
    lemma_trunc_div_bounds(SCALE * den, den, SCALE as int);
}

/// The value does not depend on which of the two comes first.
pub proof fn lemma_ssim_symmetric(x: Seq<int>, y: Seq<int>)
    requires
        x.len() == y.len(),
    ensures
        ssim_numerator(x, y) == ssim_numerator(y, x),
        ssim_denominator(x, y) == ssim_denominator(y, x),
        ssim_value(x, y) == ssim_value(y, x),
{
    lemma_dot_symmetric(x, y, x.len() as int);
    assert(sum(x) * sum(y) == sum(y) * sum(x)) by (nonlinear_arith);
}

/// Walks `window` once and adds up what `first` and `second` show in it.
pub fn window_moments(first: &GrayImage, second: &GrayImage, window: &Window) -> (m: Moments)
    requires
        gray_width(*first) == gray_width(*second),
        gray_height(*first) == gray_height(*second),
        window.within(gray_width(*first) as int, gray_height(*first) as int),
        window.spec_area() <= MAX_WINDOW_AREA,
    ensures
        m.of(window_values(first@, *window), window_values(second@, *window)),
{
    let ghost xs = window_values(first@, *window);
    let ghost ys = window_values(second@, *window);
    let area: u64 = window.area();
    let mut it = window.iter_pixels();
    let mut m = Moments { area: 0, sum_x: 0, sum_y: 0, sum_xx: 0, sum_yy: 0, sum_xy: 0 };
    while m.area < area
        invariant
            gray_width(*first) == gray_width(*second),
            gray_height(*first) == gray_height(*second),
            window.within(gray_width(*first) as int, gray_height(*first) as int),
            xs == window_values(first@, *window),
            ys == window_values(second@, *window),
            area == window.spec_area(),
            area <= MAX_WINDOW_AREA,
            it.wf(),
            it.window == *window,
            it.current_index == m.area,
            m.area <= area,
            m.sum_x == sum_to(xs, m.area as int),
            m.sum_y == sum_to(ys, m.area as int),
            m.sum_xx == dot_to(xs, xs, m.area as int),
            m.sum_yy == dot_to(ys, ys, m.area as int),
            m.sum_xy == dot_to(xs, ys, m.area as int),
        decreases area - m.area,
    {
        proof {
            lemma_sums_bounded(xs, ys, m.area as int);
            lemma_sums_bounded(xs, xs, m.area as int);
            lemma_sums_bounded(ys, ys, m.area as int);
            lemma_sums_bounded(xs, ys, m.area as int + 1);
            lemma_sums_bounded(ys, xs, m.area as int + 1);
            lemma_pixel_inside(*window, m.area as int);
        }
        let ghost before = it.remaining();
        let found = it.next();
        assert(before[0] == window.pixel(m.area as int));
        let at = found.unwrap();
        let p: u64 = first.get_pixel(at.0, at.1) as u64;
        let q: u64 = second.get_pixel(at.0, at.1) as u64;
        assert(p == xs[m.area as int] && q == ys[m.area as int]);
        assert(p * p <= 65025 && q * q <= 65025 && p * q <= 65025) by (nonlinear_arith)
            requires
                p <= 255,
                q <= 255,
        ;
        m.sum_x = m.sum_x + p;
        m.sum_y = m.sum_y + q;
        m.sum_xx = m.sum_xx + p * p;
        m.sum_yy = m.sum_yy + q * q;
        m.sum_xy = m.sum_xy + p * q;
        m.area = m.area + 1;
    }
    m
}

impl Moments {
    /// The sums are those of at least one and at most `MAX_WINDOW_AREA`
    /// grey levels.
    pub open spec fn bounded(&self) -> bool {
        &&& 1 <= self.area <= MAX_WINDOW_AREA
        &&& self.sum_x <= 255 * self.area
        &&& self.sum_y <= 255 * self.area
        &&& self.sum_xx <= 65025 * self.area
        &&& self.sum_yy <= 65025 * self.area
        &&& self.sum_xy <= 65025 * self.area
    }

    /// The mean of the first window: the sum of its levels over their number.
    pub fn mean_x(&self) -> (r: Ratio)
        requires
            self.bounded(),
        ensures
            r.num == self.sum_x,
            r.den == self.area,
    {
        Ratio { num: self.sum_x as i128, den: self.area as i128 }
    }

    /// The mean of the second window.
    pub fn mean_y(&self) -> (r: Ratio)
        requires
            self.bounded(),
        ensures
            r.num == self.sum_y,
            r.den == self.area,
    {
        Ratio { num: self.sum_y as i128, den: self.area as i128 }
    }

    /// The variance of the first window: the mean of the squares less the
    /// square of the mean, over the square of the number of pixels.
    pub fn variance_x(&self) -> (r: Ratio)
        requires
            self.bounded(),
        ensures
            r.num == self.area * self.sum_xx - self.sum_x * self.sum_x,
            r.den == self.area * self.area,
            r.den > 0,
    {
        central(self.area, self.sum_x, self.sum_x, self.sum_xx)
    }

    /// The variance of the second window.
    pub fn variance_y(&self) -> (r: Ratio)
        requires
            self.bounded(),
        ensures
            r.num == self.area * self.sum_yy - self.sum_y * self.sum_y,
            r.den == self.area * self.area,
            r.den > 0,
    {
        central(self.area, self.sum_y, self.sum_y, self.sum_yy)
    }

    /// The covariance of the two windows: the mean of the products less the
    /// product of the means, over the square of the number of pixels.
    pub fn covariance(&self) -> (r: Ratio)
        requires
            self.bounded(),
        ensures
            r.num == self.area * self.sum_xy - self.sum_x * self.sum_y,
            r.den == self.area * self.area,
            r.den > 0,
    {
        central(self.area, self.sum_x, self.sum_y, self.sum_xy)
    }
}

/// `area * sum_pq - sum_p * sum_q` over `area * area`.
pub(crate) fn central(area: u64, sum_p: u64, sum_q: u64, sum_pq: u64) -> (r: Ratio)
    requires
        1 <= area <= MAX_WINDOW_AREA,
        sum_p <= 255 * area,
        sum_q <= 255 * area,
        sum_pq <= 65025 * area,
    ensures
        r.num == area * sum_pq - sum_p * sum_q,
        r.den == area * area,
        1 <= r.den <= 6_250_000,
        -406_406_250_000 <= r.num <= 406_406_250_000,
{
    let n: i128 = area as i128;
    let p: i128 = sum_p as i128;
    let q: i128 = sum_q as i128;
    let pq: i128 = sum_pq as i128;
    assert(1 <= n * n <= 6_250_000 && 0 <= p * q <= 406_406_250_000 && 0 <= n * pq
        <= 406_406_250_000) by (nonlinear_arith)
        requires
            1 <= n <= 2500,
            0 <= p <= 255 * n,
            0 <= q <= 255 * n,
            0 <= pq <= 65025 * n,
    ;
    Ratio { num: n * pq - p * q, den: n * n }
}

/// Sums over grey levels are bounded as `Moments::bounded` says.
pub proof fn lemma_moments_bounded(m: Moments, x: Seq<int>, y: Seq<int>)
    requires
        is_gray(x),
        is_gray(y),
        x.len() == y.len(),
        1 <= x.len() <= MAX_WINDOW_AREA,
        m.of(x, y),
    ensures
        m.bounded(),
{
    let n = x.len() as int;
    lemma_sums_bounded(x, y, n);
    lemma_sums_bounded(x, x, n);
    lemma_sums_bounded(y, y, n);
}

/// The structural similarity of `x` and `y` from their means, their
/// variances and their covariance.
pub(crate) fn ssim_from_statistics(
    mean_x: Ratio,
    mean_y: Ratio,
    variance_x: Ratio,
    variance_y: Ratio,
    covariance: Ratio,
    Ghost(x): Ghost<Seq<int>>,
    Ghost(y): Ghost<Seq<int>>,
) -> (v: i64)
    requires
        is_gray(x),
        is_gray(y),
        x.len() == y.len(),
        1 <= x.len() <= MAX_WINDOW_AREA,
        mean_x.num == sum(x),
        mean_x.den == x.len(),
        mean_y.num == sum(y),
        variance_x.num == co_moment(x, x),
        variance_y.num == co_moment(y, y),
        covariance.num == co_moment(x, y),
    ensures
        v == ssim_value(x, y),
        -SCALE <= v <= SCALE,
{
    let n: i128 = mean_x.den;
    let sx: i128 = mean_x.num;
    let sy: i128 = mean_y.num;
    let vx: i128 = variance_x.num;
    let vy: i128 = variance_y.num;
    let cxy: i128 = covariance.num;
    proof {
        lemma_sums_bounded(x, y, n as int);
        lemma_sums_bounded(x, x, n as int);
        lemma_sums_bounded(y, y, n as int);
        lemma_ssim_factors(x, y);
        lemma_ssim_bounds(x, y);
        lemma_co_moment_bounds(x, y);
        assert(n * n <= 6_250_000 && sx * sy <= 406_406_250_000 && sx * sx <= 406_406_250_000 && sy
            * sy <= 406_406_250_000 && sx * sy >= 0 && sx * sx >= 0 && sy * sy >= 0 && n * dot(
            x,
            x,
        ) <= 406_406_250_000 && n * dot(y, y) <= 406_406_250_000) by (nonlinear_arith)
            requires
                1 <= n <= 2500,
                0 <= sx <= 255 * n,
                0 <= sy <= 255 * n,
                0 <= dot(x, x) <= 65025 * n,
                0 <= dot(y, y) <= 65025 * n,
        ;
        assert(0 <= vx <= 406_406_250_000);
        assert(0 <= vy <= 406_406_250_000);
        assert(-406_406_250_000 <= cxy <= 406_406_250_000);
    }
    let n2: i128 = n * n;
    let a: i128 = 800 * (sx * sy) + 2601 * n2;
    let b: i128 = 800 * cxy + 23409 * n2;
    let c: i128 = 400 * (sx * sx + sy * sy) + 2601 * n2;
    let d: i128 = 400 * (vx + vy) + 23409 * n2;
    proof {
        assert(c * d <= 105_800_000_000_000_000_000_000_000_000 && -(c * d) <= a * b <= c * d && c
            * d > 0) by (nonlinear_arith)
            requires
                0 < a <= c,
                -d <= b <= d,
                0 < d,
                c <= 325_141_256_250_000,
                d <= 325_271_306_250_000,
        ;
    }
    let num: i128 = a * b;
    let den: i128 = c * d;
    proof {
        assert(num == ssim_numerator(x, y));
        assert(den == ssim_denominator(x, y));
        assert(-(1_000_000_000 * den) <= 1_000_000_000 * num <= 1_000_000_000 * den
            <= 105_800_000_000_000_000_000_000_000_000_000_000_000) by (nonlinear_arith)
            requires
                -den <= num <= den,
                den <= 105_800_000_000_000_000_000_000_000_000,
        ;
    }
    let scale: i128 = SCALE as i128;
    if num >= 0 {
        (scale * num / den) as i64
    } else {
        -((scale * (-num) / den) as i64)
    }
}

/// The structural similarity of what `first` and `second` show inside
/// `window`.
pub fn ssim_for_window(first: &GrayImage, second: &GrayImage, window: &Window) -> (v: i64)
    requires
        gray_width(*first) == gray_width(*second),
        gray_height(*first) == gray_height(*second),
        window.within(gray_width(*first) as int, gray_height(*first) as int),
        window.spec_area() <= MAX_WINDOW_AREA,
    ensures
        v == ssim_of_window(first@, second@, *window),
        -SCALE <= v <= SCALE,
{
    let m = window_moments(first, second, window);
    let ghost x = window_values(first@, *window);
    let ghost y = window_values(second@, *window);
    proof {
        lemma_window_area_positive(*window);
        lemma_moments_bounded(m, x, y);
    }
    ssim_from_statistics(
        m.mean_x(),
        m.mean_y(),
        m.variance_x(),
        m.variance_y(),
        m.covariance(),
        Ghost(x),
        Ghost(y),
    )
}

/// The mean grey level of `image` inside `window`: the sum of the levels
/// over their number.
pub fn mean(image: &GrayImage, window: &Window) -> (r: Ratio)
    requires
        window.within(gray_width(*image) as int, gray_height(*image) as int),
        window.spec_area() <= MAX_WINDOW_AREA,
    ensures
        r.num == sum(window_values(image@, *window)),
        r.den == window.spec_area(),
        r.den > 0,
{
    let m = window_moments(image, image, window);
    proof {
        lemma_window_area_positive(*window);
        lemma_moments_bounded(m, window_values(image@, *window), window_values(image@, *window));
    }
    m.mean_x()
}

/// The covariance of the grey levels of `image_x` and `image_y` inside
/// `window`, and with one image given twice the variance of its levels: the
/// mean of the products less the product of the means, over the square of
/// the number of pixels.
pub fn covariance(image_x: &GrayImage, image_y: &GrayImage, window: &Window) -> (r: Ratio)
    requires
        gray_width(*image_x) == gray_width(*image_y),
        gray_height(*image_x) == gray_height(*image_y),
        window.within(gray_width(*image_x) as int, gray_height(*image_x) as int),
        window.spec_area() <= MAX_WINDOW_AREA,
    ensures
        r.num == co_moment(window_values(image_x@, *window), window_values(image_y@, *window)),
        r.den == window.spec_area() * window.spec_area(),
        r.den > 0,
{
    let m = window_moments(image_x, image_y, window);
    proof {
        lemma_window_area_positive(*window);
        lemma_moments_bounded(
            m,
            window_values(image_x@, *window),
            window_values(image_y@, *window),
        );
    }
    m.covariance()
}

/// A window has a pixel.
pub proof fn lemma_window_area_positive(w: Window)
    requires
        w.wf(),
    ensures
        w.spec_area() >= 1,
{
    assert(w.spec_width() * w.spec_height() >= 1) by (nonlinear_arith)
        requires
            w.spec_width() >= 1,
            w.spec_height() >= 1,
    ;
}

/// The window that holds every pixel of an image of `width` by `height`.
pub open spec fn whole_window(width: int, height: int) -> Window {
    Window { top_left: (0, 0), bottom_right: ((width - 1) as u32, (height - 1) as u32) }
}

/// The tiles over which the structural similarity of an image as large as
/// `img` is taken.
pub open spec fn image_tiles(img: Raster) -> Seq<Window> {
    whole_window(img.width as int, img.height as int).tiles(
        DEFAULT_WINDOW_SIZE as int,
    )
}

/// The structural similarity of `first` and `second` in each of the tiles.
pub open spec fn tile_values(first: Raster, second: Raster) -> Seq<int> {
    Seq::new(
        image_tiles(first).len(),
        |i: int| ssim_of_window(first, second, image_tiles(first)[i]),
    )
}

/// The sum of the first `k` values, each times the area of its tile.
pub open spec fn weighted_sum(values: Seq<int>, tiles: Seq<Window>, k: int) -> int
    decreases k,
{
    if k <= 0 {
        0
    } else {
        weighted_sum(values, tiles, k - 1) + values[k - 1] * tiles[k - 1].spec_area()
    }
}

/// The mean of the values, each weighted by the area of its tile, rounded
/// toward zero.
pub open spec fn weighted_mean(values: Seq<int>, tiles: Seq<Window>) -> int {
    trunc_div(weighted_sum(values, tiles, tiles.len() as int), total_area(tiles))
}

/// The structural similarity of two images of one size: the mean over the
/// tiles, by area.
pub open spec fn ssim_score(first: Raster, second: Raster) -> int {
    weighted_mean(tile_values(first, second), image_tiles(first))
}

/// The value that the plane of a structural comparison holds at `(x, y)`:
/// that of the tile in which the pixel lies.
pub open spec fn ssim_plane_value(first: Raster, second: Raster, x: int, y: int) -> int {
    tile_values(first, second)[whole_window(
        first.width as int,
        first.height as int,
    ).tile_index(DEFAULT_WINDOW_SIZE as int, x, y)]
}

/// A weighted sum of values between minus one and one stays between minus
/// and plus the area that it covers; where all values are one it is that
/// area.
pub proof fn lemma_weighted_sum_bounds(values: Seq<int>, tiles: Seq<Window>, k: int)
    requires
        0 <= k <= tiles.len(),
        values.len() == tiles.len(),
        forall|i: int| 0 <= i < tiles.len() ==> (#[trigger] tiles[i]).wf(),
        forall|i: int| 0 <= i < values.len() ==> -SCALE <= #[trigger] values[i] <= SCALE,
    ensures
        -(SCALE * total_area(tiles.take(k))) <= weighted_sum(values, tiles, k) <= SCALE
            * total_area(tiles.take(k)),
        (forall|i: int| 0 <= i < k ==> #[trigger] values[i] == SCALE) ==> weighted_sum(
            values,
            tiles,
            k,
        ) == SCALE * total_area(tiles.take(k)),
    decreases k,
{
    if k > 0 {
        lemma_weighted_sum_bounds(values, tiles, k - 1);
        lemma_total_area_take(tiles, k - 1);
        let before = total_area(tiles.take(k - 1));
        let area = tiles[k - 1].spec_area();
        let v = values[k - 1];
        assert(tiles[k - 1].wf());
        lemma_window_area_positive(tiles[k - 1]);
        assert(SCALE * (before + area) == SCALE * before + SCALE * area) by (nonlinear_arith);
        assert(-(SCALE * area) <= v * area <= SCALE * area && (v == SCALE ==> v * area == SCALE
            * area)) by (nonlinear_arith)
            requires
                -SCALE <= v <= SCALE,
                area >= 1,
        ;
    } else {
        assert(tiles.take(0).len() == 0);
        assert(SCALE * 0 == 0) by (nonlinear_arith);
    }
}

/// Draws each value over its tile and takes the mean of the values by area.
pub(crate) fn fill_and_score(
    values: &Vec<i64>,
    windows: &Vec<Window>,
    width: u32,
    height: u32,
) -> (r: (
    i64,
    SimilarityPlane,
))
    requires
        width >= 1,
        height >= 1,
        width * height <= usize::MAX,
        windows@ == whole_window(width as int, height as int).tiles(DEFAULT_WINDOW_SIZE as int),
        values@.len() == windows@.len(),
        forall|i: int| 0 <= i < values@.len() ==> -SCALE <= #[trigger] values@[i] <= SCALE,
    ensures
        r.0 == weighted_mean(values@.map_values(|v: i64| v as int), windows@),
        -SCALE <= r.0 <= SCALE,
        r.1.wf(),
        r.1.channels == 1,
        r.1.width == width,
        r.1.height == height,
        forall|x: int, y: int|
            0 <= x < width && 0 <= y < height ==>
                #[trigger] r.1.value(x, y, 0) == values@[whole_window(
                width as int,
                height as int,
            ).tile_index(DEFAULT_WINDOW_SIZE as int, x, y)],
{
    let ghost whole = whole_window(width as int, height as int);
    let ghost edge = DEFAULT_WINDOW_SIZE as int;
    let ghost tiles = windows@;
    let ghost vals = values@.map_values(|v: i64| v as int);
    let count: usize = width as usize * height as usize;
    let mut data: Vec<i64> = Vec::new();
    let mut filled: usize = 0;
    while filled < count
        invariant
            filled <= count,
            data@.len() == filled,
        decreases count - filled,
    {
        data.push(0);
        filled = filled + 1;
    }
    let mut plane = SimilarityPlane { width, height, channels: 1, data };
    proof {
        assert(width * height * 1 == width * height) by (nonlinear_arith);
        assert(whole.wf());
        lemma_tiles_area(whole, edge);
        assert(whole.spec_area() == width * height);
    }
    let mut acc: i128 = 0;
    let mut done: u64 = 0;
    let mut i: usize = 0;
    while i < windows.len()
        invariant
            width >= 1,
            height >= 1,
            width * height <= usize::MAX,
            whole == whole_window(width as int, height as int),
            whole.wf(),
            edge == DEFAULT_WINDOW_SIZE as int,
            tiles == windows@,
            tiles == whole.tiles(edge),
            total_area(tiles) == width * height,
            vals == values@.map_values(|v: i64| v as int),
            values@.len() == windows@.len(),
            forall|k: int| 0 <= k < values@.len() ==> -SCALE <= #[trigger] values@[k] <= SCALE,
            0 <= i <= windows.len(),
            acc == weighted_sum(vals, tiles, i as int),
            done == total_area(tiles.take(i as int)),
            plane.wf(),
            plane.channels == 1,
            plane.width == width,
            plane.height == height,
            forall|x: int, y: int|
                0 <= x < width && 0 <= y < height && whole.tile_index(edge, x, y) < i
                    ==> #[trigger] plane.value(x, y, 0) == values@[whole.tile_index(edge, x, y)],
        decreases windows.len() - i,
    {
        let window: Window = windows[i];
        let value: i64 = values[i];
        proof {
            assert forall|k: int| 0 <= k < tiles.len() implies (#[trigger] tiles[k]).wf() by {
                lemma_tile_at(whole, edge, k);
            }
            assert forall|k: int| 0 <= k < vals.len() implies -SCALE <= #[trigger] vals[k]
                <= SCALE by {
                assert(vals[k] == values@[k]);
            }
            lemma_tile_at(whole, edge, i as int);
            lemma_total_area_take(tiles, i as int);
            lemma_total_area_take(tiles, i as int + 1);
            lemma_weighted_sum_bounds(vals, tiles, i as int);
            lemma_weighted_sum_bounds(vals, tiles, i as int + 1);
            assert(SCALE * total_area(tiles.take(i as int + 1)) <= SCALE * (width * height))
                by (nonlinear_arith)
                requires
                    total_area(tiles.take(i as int + 1)) <= width * height,
            ;
            assert(SCALE * (width * height) <= 1_000_000_000 * 0xffff_ffff_ffff_ffff)
                by (nonlinear_arith)
                requires
                    width * height <= usize::MAX,
            ;
            assert(vals[i as int] == value);
        }
        let area: u64 = window.area();
        acc = acc + value as i128 * area as i128;
        done = done + area;
        let ghost earlier = plane;
        draw_window_to_image(&window, &mut plane, value);
        proof {
            assert forall|x: int, y: int|
                0 <= x < width && 0 <= y < height && whole.tile_index(edge, x, y) < i
                    + 1 implies #[trigger] plane.value(x, y, 0) == values@[whole.tile_index(
                edge,
                x,
                y,
            )] by {
                assert(whole.contains(x, y));
                if whole.tile_index(edge, x, y) < i {
                    assert(earlier.value(x, y, 0) == values@[whole.tile_index(edge, x, y)]);
                }
            }
        }
        i = i + 1;
    }
    proof {
        assert(tiles.take(i as int) =~= tiles);
        assert forall|k: int| 0 <= k < tiles.len() implies (#[trigger] tiles[k]).wf() by {
            lemma_tile_at(whole, edge, k);
        }
        assert forall|k: int| 0 <= k < vals.len() implies -SCALE <= #[trigger] vals[k] <= SCALE by {
            assert(vals[k] == values@[k]);
        }
        lemma_weighted_sum_bounds(vals, tiles, i as int);
        assert(width * height >= 1) by (nonlinear_arith)
            requires
                width >= 1,
                height >= 1,
        ;
        lemma_trunc_div_bounds(acc as int, width * height, SCALE as int);
        assert forall|x: int, y: int| 0 <= x < width && 0 <= y < height implies
            #[trigger] plane.value(
            x,
            y,
            0,
        ) == values@[whole.tile_index(edge, x, y)] by {
            assert(whole.contains(x, y));
            lemma_tiles_partition(whole, edge, x, y);
        }
    }
    let total: i128 = done as i128;
    let score: i64 = if acc >= 0 {
        (acc / total) as i64
    } else {
        -(((-acc) / total) as i64)
    };
    (score, plane)
}

/// Compares two grey images of one size by structural similarity over tiles
/// of eight by eight pixels.
///
/// Every pixel of the plane holds the value of its tile; the score is the
/// mean of the values by the area of the tiles. Two images without a pixel
/// have no tile: the comparison fails.
pub fn ssim_simple(first: &GrayImage, second: &GrayImage) -> (r: Result<
    (i64, SimilarityPlane),
    CompareError,
>)
    requires
        gray_width(*first) == gray_width(*second),
        gray_height(*first) == gray_height(*second),
    ensures
        r is Err <==> gray_width(*first) * gray_height(*first) == 0,
        r matches Err(e) ==> e is CalculationFailed,
        r matches Ok(found) ==> {
            &&& found.0 == ssim_score(first@, second@)
            &&& -SCALE <= found.0 <= SCALE
            &&& found.1.wf()
            &&& found.1.channels == 1
            &&& found.1.width == gray_width(*first)
            &&& found.1.height == gray_height(*first)
            &&& forall|x: int, y: int|
                0 <= x < gray_width(*first) && 0 <= y < gray_height(*first)
                    ==> #[trigger] found.1.value(x, y, 0) == ssim_plane_value(
                    first@,
                    second@,
                    x,
                    y,
                )
        },
{
    let (width, height) = first.dimensions();
    if width == 0 || height == 0 {
        assert(width * height == 0) by (nonlinear_arith)
            requires
                width == 0 || height == 0,
        ;
        return Err(CompareError::CalculationFailed("the images have no pixel".to_owned()));
    }
    assert(width * height >= 1) by (nonlinear_arith)
        requires
            width >= 1,
            height >= 1,
    ;
    let whole = Window::from_image(first);
    let windows = whole.subdivide_by_offset(DEFAULT_WINDOW_SIZE);
    let ghost tiles = image_tiles(first@);
    assert(whole == whole_window(width as int, height as int));
    let mut values: Vec<i64> = Vec::new();
    let mut i: usize = 0;
    while i < windows.len()
        invariant
            gray_width(*first) == gray_width(*second),
            gray_height(*first) == gray_height(*second),
            width == gray_width(*first),
            height == gray_height(*first),
            width >= 1,
            height >= 1,
            whole == whole_window(width as int, height as int),
            whole.wf(),
            windows@ == tiles,
            tiles == image_tiles(first@),
            0 <= i <= windows.len(),
            values@.len() == i,
            forall|k: int|
                0 <= k < i ==> #[trigger] values@[k] == ssim_of_window(first@, second@, tiles[k]),
            forall|k: int| 0 <= k < i ==> -SCALE <= #[trigger] values@[k] <= SCALE,
        decreases windows.len() - i,
    {
        proof {
            lemma_tile_at(whole, DEFAULT_WINDOW_SIZE as int, i as int);
        }
        let value = ssim_for_window(first, second, &windows[i]);
        values.push(value);
        i = i + 1;
    }
    let found = fill_and_score(&values, &windows, width, height);
    proof {
        assert(values@.map_values(|v: i64| v as int) =~= tile_values(first@, second@));
        assert forall|x: int, y: int| 0 <= x < width && 0 <= y < height implies
            #[trigger] found.1.value(
            x,
            y,
            0,
        ) == ssim_plane_value(first@, second@, x, y) by {
            assert(whole.contains(x, y));
            lemma_tiles_partition(whole, DEFAULT_WINDOW_SIZE as int, x, y);
        }
    }
    Ok(found)
}

/// The value of every tile lies between minus one and one.
pub proof fn lemma_tile_values_bounds(first: Raster, second: Raster)
    requires
        first.wf(),
        first.width >= 1,
        first.height >= 1,
    ensures
        tile_values(first, second).len() == image_tiles(first).len(),
        forall|i: int|
            0 <= i < image_tiles(first).len() ==> -SCALE <= #[trigger] tile_values(
                first,
                second,
            )[i] <= SCALE,
        forall|i: int| 0 <= i < image_tiles(first).len() ==>
            (#[trigger] image_tiles(first)[i]).wf(),
        total_area(image_tiles(first)) == first.width * first.height,
{
    let whole = whole_window(first.width as int, first.height as int);
    let edge = DEFAULT_WINDOW_SIZE as int;
    lemma_tiles_area(whole, edge);
    assert forall|i: int| 0 <= i < image_tiles(first).len() implies
        -SCALE <= #[trigger] tile_values(
        first,
        second,
    )[i] <= SCALE by {
        lemma_tile_at(whole, edge, i);
        let t = image_tiles(first)[i];
        lemma_ssim_bounds(window_values(first, t), window_values(second, t));
    }
    assert forall|i: int| 0 <= i < image_tiles(first).len() implies (#[trigger] image_tiles(
        first,
    )[i]).wf() by {
        lemma_tile_at(whole, edge, i);
    }
}

/// The score of a structural comparison lies between minus one and one.
pub proof fn lemma_ssim_score_bounds(first: Raster, second: Raster)
    requires
        first.wf(),
        first.width >= 1,
        first.height >= 1,
    ensures
        -SCALE <= ssim_score(first, second) <= SCALE,
{
    let tiles = image_tiles(first);
    let values = tile_values(first, second);
    lemma_tile_values_bounds(first, second);
    lemma_weighted_sum_bounds(values, tiles, tiles.len() as int);
    assert(tiles.take(tiles.len() as int) =~= tiles);
    assert(first.width * first.height >= 1) by (nonlinear_arith)
        requires
            first.width >= 1,
            first.height >= 1,
    ;
    lemma_trunc_div_bounds(
        weighted_sum(values, tiles, tiles.len() as int),
        total_area(tiles),
        SCALE as int,
    );
}

/// The plane of a structural comparison lies between minus one and one.
pub proof fn lemma_ssim_plane_bounds(first: Raster, second: Raster)
    requires
        first.wf(),
        first.width >= 1,
        first.height >= 1,
    ensures
        forall|x: int, y: int|
            0 <= x < first.width && 0 <= y < first.height ==> -SCALE <= #[trigger] ssim_plane_value(
                first,
                second,
                x,
                y,
            ) <= SCALE,
{
    let whole = whole_window(first.width as int, first.height as int);
    lemma_tile_values_bounds(first, second);
    assert forall|x: int, y: int|
        0 <= x < first.width && 0 <= y < first.height implies -SCALE <= #[trigger] ssim_plane_value(
        first,
        second,
        x,
        y,
    ) <= SCALE by {
        assert(whole.contains(x, y));
        lemma_tiles_partition(whole, DEFAULT_WINDOW_SIZE as int, x, y);
    }
}

/// An image that has a pixel is structurally as similar to itself as can
/// be: the score is one, and so is the plane at every pixel.
pub proof fn lemma_ssim_identity_of_image(img: Raster)
    requires
        img.wf(),
        img.width >= 1,
        img.height >= 1,
    ensures
        ssim_score(img, img) == SCALE,
        forall|x: int, y: int|
            0 <= x < img.width && 0 <= y < img.height ==> #[trigger] ssim_plane_value(
                img,
                img,
                x,
                y,
            ) == SCALE,
{
    let whole = whole_window(img.width as int, img.height as int);
    let edge = DEFAULT_WINDOW_SIZE as int;
    let tiles = image_tiles(img);
    let values = tile_values(img, img);
    lemma_tile_values_bounds(img, img);
    assert forall|i: int| 0 <= i < tiles.len() implies #[trigger] values[i] == SCALE by {
        lemma_tile_at(whole, edge, i);
        lemma_ssim_identity(window_values(img, tiles[i]));
    }
    lemma_weighted_sum_bounds(values, tiles, tiles.len() as int);
    assert(tiles.take(tiles.len() as int) =~= tiles);
    assert(img.width * img.height >= 1) by (nonlinear_arith)
        requires
            img.width >= 1,
            img.height >= 1,
    ;
    lemma_trunc_div_bounds(
        weighted_sum(values, tiles, tiles.len() as int),
        total_area(tiles),
        SCALE as int,
    );
    assert forall|x: int, y: int|
        0 <= x < img.width && 0 <= y < img.height implies #[trigger] ssim_plane_value(
        img,
        img,
        x,
        y,
    ) == SCALE by {
        assert(whole.contains(x, y));
        lemma_tiles_partition(whole, edge, x, y);
    }
}

/// Neither the score nor the plane of a structural comparison depends on
/// which image comes first.
pub proof fn lemma_ssim_symmetric_of_images(first: Raster, second: Raster)
    requires
        first.width == second.width,
        first.height == second.height,
    ensures
        ssim_score(first, second) == ssim_score(second, first),
        forall|x: int, y: int| #[trigger]
            ssim_plane_value(first, second, x, y) == ssim_plane_value(second, first, x, y),
{
    let tiles = image_tiles(first);
    assert(image_tiles(second) == tiles);
    assert forall|i: int| 0 <= i < tiles.len() implies #[trigger] tile_values(first, second)[i]
        == tile_values(second, first)[i] by {
        let t = tiles[i];
        assert(window_values(first, t).len() == window_values(second, t).len());
        lemma_ssim_symmetric(window_values(first, t), window_values(second, t));
    }
    assert(tile_values(first, second) =~= tile_values(second, first));
}

/// Inside one tile the plane of a structural comparison is flat: two pixels
/// of a tile hold one value.
pub proof fn lemma_ssim_plane_flat(
    first: Raster,
    second: Raster,
    i: int,
    x1: int,
    y1: int,
    x2: int,
    y2: int,
)
    requires
        first.wf(),
        first.width >= 1,
        first.height >= 1,
        0 <= i < image_tiles(first).len(),
        image_tiles(first)[i].contains(x1, y1),
        image_tiles(first)[i].contains(x2, y2),
    ensures
        ssim_plane_value(first, second, x1, y1) == ssim_plane_value(first, second, x2, y2),
        ssim_plane_value(first, second, x1, y1) == tile_values(first, second)[i],
{
    let whole = whole_window(first.width as int, first.height as int);
    lemma_tile_at(whole, DEFAULT_WINDOW_SIZE as int, i);
}

} // verus!
