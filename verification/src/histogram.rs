//! Histograms of grey levels, and what two histograms share.

use crate::images::{gray_height, gray_samples, gray_width, GrayImage};
use crate::similarity::lemma_pixel_index;
use crate::CompareError;
use vstd::prelude::*;

verus! {

/// The number of grey levels, and so of bins.
pub const BINS: usize = 256;

/// How often each grey level occurs: one bin for each level.
pub struct Histogram {
    pub data: Vec<u64>,
}

/// How often `level` occurs among the first `k` samples.
pub open spec fn count_to(samples: Seq<u8>, level: int, k: int) -> int
    decreases k,
{
    if k <= 0 {
        0
    } else {
        count_to(samples, level, k - 1) + if samples[k - 1] == level {
            1int
        } else {
            0int
        }
    }
}

/// The sum of the first `k` bins.
pub open spec fn bins_to(data: Seq<u64>, k: int) -> int
    decreases k,
{
    if k <= 0 {
        0
    } else {
        bins_to(data, k - 1) + data[k - 1]
    }
}

/// A level occurs no more often than there are samples.
pub proof fn lemma_count_bounds(samples: Seq<u8>, level: int, k: int)
    requires
        0 <= k,
    ensures
        0 <= count_to(samples, level, k) <= k,
    decreases k,
{
    if k > 0 {
        lemma_count_bounds(samples, level, k - 1);
    }
}

/// The occurrences of the levels below `bins` among `k` samples add up to
/// the number of samples that are below `bins`; with all 256 levels, to `k`.
proof fn lemma_counts_add_up(samples: Seq<u8>, data: Seq<u64>, k: int, bins: int)
    requires
        0 <= k,
        0 <= bins <= 256,
        data.len() == 256,
        forall|level: int| 0 <= level < 256 ==>
            #[trigger] data[level] == count_to(samples, level, k),
    ensures
        0 <= bins_to(data, bins) <= k,
        bins == 256 ==> bins_to(data, bins) == k,
    decreases k,
{
    lemma_below_add_up(samples, data, k, bins);
    lemma_below_bounds(samples, k, bins);
}

/// How many of the first `k` samples are below `bins`.
spec fn below_to(samples: Seq<u8>, bins: int, k: int) -> int
    decreases k,
{
    if k <= 0 {
        0
    } else {
        below_to(samples, bins, k - 1) + if samples[k - 1] < bins {
            1int
        } else {
            0int
        }
    }
}

proof fn lemma_below_bounds(samples: Seq<u8>, k: int, bins: int)
    requires
        0 <= k,
    ensures
        0 <= below_to(samples, bins, k) <= k,
        bins >= 256 ==> below_to(samples, bins, k) == k,
    decreases k,
{
    if k > 0 {
        lemma_below_bounds(samples, k - 1, bins);
    }
}

proof fn lemma_below_step(samples: Seq<u8>, k: int, bins: int)
    requires
        0 <= k,
        0 <= bins,
    ensures
        below_to(samples, bins + 1, k) == below_to(samples, bins, k) + count_to(samples, bins, k),
    decreases k,
{
    if k > 0 {
        lemma_below_step(samples, k - 1, bins);
    }
}

proof fn lemma_below_add_up(samples: Seq<u8>, data: Seq<u64>, k: int, bins: int)
    requires
        0 <= k,
        0 <= bins <= 256,
        data.len() == 256,
        forall|level: int| 0 <= level < 256 ==>
            #[trigger] data[level] == count_to(samples, level, k),
    ensures
        bins_to(data, bins) == below_to(samples, bins, k),
    decreases bins,
{
    if bins > 0 {
        lemma_below_add_up(samples, data, k, bins - 1);
        lemma_below_step(samples, k, bins - 1);
    } else {
        lemma_below_none(samples, k);
    }
}

proof fn lemma_below_none(samples: Seq<u8>, k: int)
    ensures
        below_to(samples, 0, k) == 0,
    decreases k,
{
    if k > 0 {
        lemma_below_none(samples, k - 1);
    }
}

impl Histogram {
    /// There is one bin for each grey level.
    pub open spec fn wf(&self) -> bool {
        self.data@.len() == 256
    }

    /// The bins count the levels of `samples`.
    pub open spec fn counts(&self, samples: Seq<u8>) -> bool {
        &&& self.wf()
        &&& forall|level: int|
            0 <= level < 256 ==> #[trigger] self.data@[level] == count_to(
                samples,
                level,
                samples.len() as int,
            )
    }

    /// How often the level `bin` occurs.
    pub fn get_bin_content(&self, bin: u8) -> (r: u64)
        requires
            self.wf(),
        ensures
            r == self.data@[bin as int],
    {
        self.data[bin as usize]
    }

    /// Counts the grey levels of `image`.
    pub fn from_gray_image(image: &GrayImage) -> (r: Histogram)
        ensures
            r.counts(gray_samples(*image)),
    {
        let (width, height) = image.dimensions();
        let ghost w = width as int;
        let ghost h = height as int;
        let ghost samples = gray_samples(*image);
        let mut data: Vec<u64> = Vec::new();
        let mut bin: usize = 0;
        while bin < BINS
            invariant
                bin <= 256,
                data@.len() == bin,
                forall|level: int| 0 <= level < bin ==> #[trigger] data@[level] == 0,
            decreases 256 - bin,
        {
            data.push(0);
            bin = bin + 1;
        }
        let mut y: u32 = 0;
        while y < height
            invariant
                width == gray_width(*image),
                height == gray_height(*image),
                samples == gray_samples(*image),
                samples.len() == w * h,
                w * h <= usize::MAX,
                w == width,
                h == height,
                0 <= y <= height,
                data@.len() == 256,
                forall|level: int|
                    0 <= level < 256 ==> #[trigger] data@[level] == count_to(samples, level, y * w),
            decreases height - y,
        {
            let mut x: u32 = 0;
            while x < width
                invariant
                    width == gray_width(*image),
                    height == gray_height(*image),
                    samples == gray_samples(*image),
                    samples.len() == w * h,
                    w * h <= usize::MAX,
                    w == width,
                    h == height,
                    0 <= y < height,
                    0 <= x <= width,
                    data@.len() == 256,
                    forall|level: int|
                        0 <= level < 256 ==> #[trigger] data@[level] == count_to(
                            samples,
                            level,
                            y * w + x,
                        ),
                decreases width - x,
            {
                let level: u8 = image.get_pixel(x, y);
                proof {
                    lemma_pixel_index(x as int, y as int, w, h);
                    lemma_count_bounds(samples, level as int, y * w + x);
                }
                let seen: u64 = data[level as usize];
                data.set(level as usize, seen + 1);
                x = x + 1;
            }
            proof {
                assert((y + 1) * w == y * w + w) by (nonlinear_arith);
            }
            y = y + 1;
        }
        proof {
            assert(height * w == w * h) by (nonlinear_arith)
                requires
                    h == height,
            ;
        }
        Histogram { data }
    }

    /// The sum of all bins: where the bins count the levels of an image, the
    /// number of its pixels. `None` where the sum is more than a `u64` holds.
    pub fn integral(&self) -> (r: Option<u64>)
        requires
            self.wf(),
        ensures
            r is Some <==> bins_to(self.data@, 256) <= u64::MAX,
            r matches Some(total) ==> total == bins_to(self.data@, 256),
    {
        let mut total: u64 = 0;
        let mut bin: usize = 0;
        while bin < BINS
            invariant
                self.wf(),
                bin <= 256,
                total == bins_to(self.data@, bin as int),
            decreases 256 - bin,
        {
            let content: u64 = self.data[bin];
            if content > u64::MAX - total {
                proof {
                    lemma_bins_grow(self.data@, bin as int + 1, 256);
                }
                return None;
            }
            total = total + content;
            bin = bin + 1;
        }
        Some(total)
    }

    /// The histogram with the bins `data`, or `None` where `data` has not one
    /// bin for each grey level.
    pub fn from_vec(data: Vec<u64>) -> (r: Option<Histogram>)
        ensures
            r is Some <==> data@.len() == 256,
            r matches Some(hist) ==> hist.data@ == data@,
    {
        if data.len() != BINS {
            None
        } else {
            Some(Histogram { data })
        }
    }
}

/// The sum of more bins is no less.
pub proof fn lemma_bins_grow(data: Seq<u64>, k: int, n: int)
    requires
        0 <= k <= n,
    ensures
        0 <= bins_to(data, k) <= bins_to(data, n),
    decreases n,
{
    if k < n {
        lemma_bins_grow(data, k, n - 1);
    } else {
        lemma_bins_nonnegative(data, k);
    }
}

pub proof fn lemma_bins_nonnegative(data: Seq<u64>, k: int)
    ensures
        0 <= bins_to(data, k),
    decreases k,
{
    if k > 0 {
        lemma_bins_nonnegative(data, k - 1);
    }
}

/// The bins of an image add up to the number of its pixels.
pub proof fn lemma_histogram_integral(hist: Histogram, samples: Seq<u8>)
    requires
        hist.counts(samples),
    ensures
        bins_to(hist.data@, 256) == samples.len(),
{
    lemma_counts_add_up(samples, hist.data@, samples.len() as int, 256);
}

/// The sum over the first `k` levels of the lesser of the two bins.
pub open spec fn intersection_to(first: Seq<u64>, second: Seq<u64>, k: int) -> int
    decreases k,
{
    if k <= 0 {
        0
    } else {
        intersection_to(first, second, k - 1) + if first[k - 1] <= second[k - 1] {
            first[k - 1] as int
        } else {
            second[k - 1] as int
        }
    }
}

/// What two histograms share is no more than what the first holds.
pub proof fn lemma_intersection_bounds(first: Seq<u64>, second: Seq<u64>, k: int)
    requires
        0 <= k,
    ensures
        0 <= intersection_to(first, second, k) <= bins_to(first, k),
        intersection_to(first, second, k) == intersection_to(second, first, k),
    decreases k,
{
    if k > 0 {
        lemma_intersection_bounds(first, second, k - 1);
    }
}

/// What two histograms share: the sum over all levels of the lesser of the
/// two bins. `None` where the bins of the first add up to more than a `u64`
/// holds.
pub fn intersection(first_hist: &Histogram, second_hist: &Histogram) -> (r: Option<u64>)
    requires
        first_hist.wf(),
        second_hist.wf(),
    ensures
        r is Some <==> bins_to(first_hist.data@, 256) <= u64::MAX,
        r matches Some(shared) ==> shared == intersection_to(
            first_hist.data@,
            second_hist.data@,
            256,
        ),
{
    let total = first_hist.integral();
    if total.is_none() {
        return None;
    }
    let mut shared: u64 = 0;
    let mut bin: usize = 0;
    while bin < BINS
        invariant
            first_hist.wf(),
            second_hist.wf(),
            bins_to(first_hist.data@, 256) <= u64::MAX,
            bin <= 256,
            shared == intersection_to(first_hist.data@, second_hist.data@, bin as int),
        decreases 256 - bin,
    {
        let one: u64 = first_hist.data[bin];
        let other: u64 = second_hist.data[bin];
        proof {
            lemma_intersection_bounds(first_hist.data@, second_hist.data@, bin as int + 1);
            lemma_bins_grow(first_hist.data@, bin as int + 1, 256);
        }
        shared = shared + if one <= other {
            one
        } else {
            other
        };
        bin = bin + 1;
    }
    Some(shared)
}

/// The histograms of two grey images of one size; images of different width
/// or height are refused.
pub fn histograms_of(first: &GrayImage, second: &GrayImage) -> (r: Result<
    (Histogram, Histogram),
    CompareError,
>)
    ensures
        r is Err <==> (gray_width(*first) != gray_width(*second) || gray_height(*first)
            != gray_height(*second)),
        r matches Err(e) ==> e is DimensionsDiffer,
        r matches Ok(found) ==> found.0.counts(gray_samples(*first)) && found.1.counts(
            gray_samples(*second),
        ),
{
    let (width, height) = first.dimensions();
    let (other_width, other_height) = second.dimensions();
    if width != other_width || height != other_height {
        return Err(CompareError::DimensionsDiffer);
    }
    Ok((Histogram::from_gray_image(first), Histogram::from_gray_image(second)))
}

} // verus!
