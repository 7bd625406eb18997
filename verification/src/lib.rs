//! Similarity of two images of one size: a score for the pair and a map of
//! the differences, pixel by pixel.
//!
//! All similarities are fixed-point numbers: an `i64` that counts billionths,
//! so that [`fixed::SCALE`] stands for one. Every rounding is stated in the
//! contract of the function that makes it.

use crate::channels::{merge_similarity_channels, plain_raster, Decompose};
use crate::fixed::{min2, SCALE};
pub use crate::hybrid::{
    rgb_hybrid_compare, rgba_blended_hybrid_compare, rgba_hybrid_compare, BlendInput,
};
use crate::images::{gray_height, gray_width, rgb_height, rgb_samples, rgb_width, Raster};
pub use crate::images::{GrayImage, RgbImage, RgbaImage};
pub use crate::similarity::{Similarity, SimilarityImage, SimilarityPlane};
use crate::squared_error::{
    lemma_rms_identity, lemma_rms_score_bounds, lemma_rms_symmetric, lemma_rms_value_bounds,
    rms_score, rms_value, root_mean_squared_error_simple,
};
use crate::ssim::{
    lemma_ssim_identity_of_image, lemma_ssim_plane_bounds, lemma_ssim_score_bounds,
    lemma_ssim_symmetric_of_images, ssim_plane_value, ssim_score, ssim_simple,
};
use vstd::prelude::*;

pub mod accelerator;
pub mod channels;
pub mod colorization;
pub mod fixed;
pub mod histogram;
pub mod hybrid;
pub mod images;
pub mod prelude;
pub mod similarity;
pub mod squared_error;
pub mod ssim;
pub mod stats;
pub mod window;

verus! {

/// The way in which two grey images are compared.
pub enum Algorithm {
    /// One minus the root of the mean squared difference of the pixels.
    RootMeanSquared,
    /// Structural similarity over tiles of eight by eight pixels, averaged by
    /// the area of the tiles.
    MSSIMSimple,
}

/// The distance by which two histograms are compared.
pub enum Metric {
    /// The covariance of the bins over the root of the product of their
    /// variances.
    Correlation,
    /// The sum over the levels of the squared difference of the two bins
    /// over the first bin. The first histogram may not have empty bins.
    ChiSquare,
    /// The sum over the levels of the lesser of the two bins.
    Intersection,
    /// The root of one minus the sum of the roots of the products of the two
    /// bins, over the root of the product of the two sums. Both histograms
    /// need to be normalizable.
    Hellinger,
}

/// What can go wrong in a comparison.
#[derive(Debug)]
pub enum CompareError {
    /// The two images are not of one width and one height.
    DimensionsDiffer,
    /// The inputs admit no result; the text says why.
    CalculationFailed(String),
}

/// The score that `algorithm` gives to two single-channel images.
pub open spec fn gray_score(algorithm: Algorithm, first: Raster, second: Raster) -> int {
    match algorithm {
        Algorithm::RootMeanSquared => rms_score(first.samples, second.samples),
        Algorithm::MSSIMSimple => ssim_score(first, second),
    }
}

/// The similarity that `algorithm` finds at the pixel `(x, y)` of two
/// single-channel images.
pub open spec fn gray_value(
    algorithm: Algorithm,
    first: Raster,
    second: Raster,
    x: int,
    y: int,
) -> int {
    match algorithm {
        Algorithm::RootMeanSquared => rms_value(first.at(x, y), second.at(x, y)),
        Algorithm::MSSIMSimple => ssim_plane_value(first, second, x, y),
    }
}

/// Channel `c` of a colour image with three samples to a pixel.
pub open spec fn rgb_channel(img: RgbImage, c: int) -> Raster {
    plain_raster(rgb_width(img), rgb_height(img), rgb_samples(img), 3, c)
}

/// The score that `algorithm` gives to two colour images: that of their
/// worst channel.
pub open spec fn rgb_score(algorithm: Algorithm, first: RgbImage, second: RgbImage) -> int {
    min2(
        min2(
            min2(
                SCALE as int,
                gray_score(algorithm, rgb_channel(first, 0), rgb_channel(second, 0)),
            ),
            gray_score(algorithm, rgb_channel(first, 1), rgb_channel(second, 1)),
        ),
        gray_score(algorithm, rgb_channel(first, 2), rgb_channel(second, 2)),
    )
}

/// Compares two single-channel images of one size as `algorithm` says.
fn compare_channel(algorithm: &Algorithm, first: &GrayImage, second: &GrayImage) -> (r: Result<
    (i64, SimilarityPlane),
    CompareError,
>)
    requires
        gray_width(*first) == gray_width(*second),
        gray_height(*first) == gray_height(*second),
    ensures
        r is Err <==> gray_width(*first) * gray_height(*first) == 0,
        r matches Err(e) ==> e is CalculationFailed,
        r matches Ok(found) ==> {
            &&& found.0 == gray_score(*algorithm, first@, second@)
            &&& -SCALE <= found.0 <= SCALE
            &&& found.1.wf()
            &&& found.1.channels == 1
            &&& found.1.width == gray_width(*first)
            &&& found.1.height == gray_height(*first)
            &&& forall|x: int, y: int|
                0 <= x < gray_width(*first) && 0 <= y < gray_height(*first)
                    ==> #[trigger] found.1.value(x, y, 0) == gray_value(
                    *algorithm,
                    first@,
                    second@,
                    x,
                    y,
                )
        },
{
    match algorithm {
        Algorithm::RootMeanSquared => root_mean_squared_error_simple(first, second),
        Algorithm::MSSIMSimple => ssim_simple(first, second),
    }
}

/// Compares two grey images by their structure.
///
/// Images of different width or height are refused, and so are images
/// without a pixel, which have no score. Otherwise the result holds the
/// score of `algorithm` and a map with its similarity at every pixel.
pub fn gray_similarity_structure(
    algorithm: &Algorithm,
    first: &GrayImage,
    second: &GrayImage,
) -> (r: Result<Similarity, CompareError>)
    ensures
        r matches Err(CompareError::DimensionsDiffer) <==> (gray_width(*first) != gray_width(
            *second,
        ) || gray_height(*first) != gray_height(*second)),
        r matches Err(CompareError::CalculationFailed(_)) <==> (gray_width(*first) == gray_width(
            *second,
        ) && gray_height(*first) == gray_height(*second) && gray_width(*first) * gray_height(
            *first,
        ) == 0),
        r matches Ok(sim) ==> {
            &&& sim.score == gray_score(*algorithm, first@, second@)
            &&& -SCALE <= sim.score <= SCALE
            &&& sim.image matches Some(SimilarityImage::Gray(plane))
            &&& plane.wf()
            &&& plane.channels == 1
            &&& plane.width == gray_width(*first)
            &&& plane.height == gray_height(*first)
            &&& forall|x: int, y: int|
                0 <= x < gray_width(*first) && 0 <= y < gray_height(*first)
                    ==> #[trigger] plane.value(x, y, 0) == gray_value(
                    *algorithm,
                    first@,
                    second@,
                    x,
                    y,
                )
        },
{
    let (width, height) = first.dimensions();
    let (other_width, other_height) = second.dimensions();
    if width != other_width || height != other_height {
        return Err(CompareError::DimensionsDiffer);
    }
    match compare_channel(algorithm, first, second) {
        Ok(found) => Ok(Similarity { image: Some(SimilarityImage::Gray(found.1)), score: found.0 }),
        Err(e) => Err(e),
    }
}

/// Compares two colour images by their structure, channel by channel.
///
/// Images of different width or height are refused, and so are images
/// without a pixel. Otherwise red, green and blue are compared each on its
/// own as `algorithm` says: the map holds the three similarities of every
/// pixel side by side, the score is that of the worst channel.
pub fn rgb_similarity_structure(algorithm: &Algorithm, first: &RgbImage, second: &RgbImage) -> (r:
    Result<Similarity, CompareError>)
    ensures
        r matches Err(CompareError::DimensionsDiffer) <==> (rgb_width(*first) != rgb_width(*second)
            || rgb_height(*first) != rgb_height(*second)),
        r matches Err(CompareError::CalculationFailed(_)) <==> (rgb_width(*first) == rgb_width(
            *second,
        ) && rgb_height(*first) == rgb_height(*second) && rgb_width(*first) * rgb_height(*first)
            == 0),
        r matches Ok(sim) ==> {
            &&& sim.score == rgb_score(*algorithm, *first, *second)
            &&& -SCALE <= sim.score <= SCALE
            &&& sim.image matches Some(SimilarityImage::RGB(plane))
            &&& plane.wf()
            &&& plane.channels == 3
            &&& plane.width == rgb_width(*first)
            &&& plane.height == rgb_height(*first)
            &&& forall|x: int, y: int, c: int|
                0 <= x < rgb_width(*first) && 0 <= y < rgb_height(*first) && 0 <= c < 3
                    ==> #[trigger] plane.value(x, y, c) == gray_value(
                    *algorithm,
                    rgb_channel(*first, c),
                    rgb_channel(*second, c),
                    x,
                    y,
                )
        },
{
    let (width, height) = first.dimensions();
    let (other_width, other_height) = second.dimensions();
    if width != other_width || height != other_height {
        return Err(CompareError::DimensionsDiffer);
    }
    let first_channels = first.split_channels();
    let second_channels = second.split_channels();
    assert(first_channels[0]@ == rgb_channel(*first, 0));
    assert(first_channels[1]@ == rgb_channel(*first, 1));
    assert(first_channels[2]@ == rgb_channel(*first, 2));
    assert(second_channels[0]@ == rgb_channel(*second, 0));
    assert(second_channels[1]@ == rgb_channel(*second, 1));
    assert(second_channels[2]@ == rgb_channel(*second, 2));
    let red = match compare_channel(algorithm, &first_channels[0], &second_channels[0]) {
        Ok(found) => found,
        Err(e) => {
            return Err(e);
        },
    };
    let green = match compare_channel(algorithm, &first_channels[1], &second_channels[1]) {
        Ok(found) => found,
        Err(e) => {
            return Err(e);
        },
    };
    let blue = match compare_channel(algorithm, &first_channels[2], &second_channels[2]) {
        Ok(found) => found,
        Err(e) => {
            return Err(e);
        },
    };
    let input = [&red.1, &green.1, &blue.1];
    assert(input[0] == &red.1 && input[1] == &green.1 && input[2] == &blue.1);
    let plane = merge_similarity_channels(&input);
    let mut score: i64 = SCALE;
    if red.0 < score {
        score = red.0;
    }
    if green.0 < score {
        score = green.0;
    }
    if blue.0 < score {
        score = blue.0;
    }
    proof {
        assert forall|x: int, y: int, c: int|
            0 <= x < width && 0 <= y < height && 0 <= c < 3 implies #[trigger] plane.value(x, y, c)
            == gray_value(*algorithm, rgb_channel(*first, c), rgb_channel(*second, c), x, y) by {
            assert(plane.value(x, y, c) == input[c].value(x, y, 0));
            if c == 0 {
                assert(red.1.value(x, y, 0) == gray_value(
                    *algorithm,
                    first_channels[0]@,
                    second_channels[0]@,
                    x,
                    y,
                ));
            } else if c == 1 {
                assert(green.1.value(x, y, 0) == gray_value(
                    *algorithm,
                    first_channels[1]@,
                    second_channels[1]@,
                    x,
                    y,
                ));
            } else {
                assert(blue.1.value(x, y, 0) == gray_value(
                    *algorithm,
                    first_channels[2]@,
                    second_channels[2]@,
                    x,
                    y,
                ));
            }
        }
    }
    Ok(Similarity { image: Some(SimilarityImage::RGB(plane)), score })
}

/// An image that has a pixel is as similar to itself as can be, whichever
/// way it is compared: the score is one, and so is the map at every pixel.
pub proof fn lemma_identity(algorithm: Algorithm, img: Raster)
    requires
        img.wf(),
        img.width >= 1,
        img.height >= 1,
    ensures
        gray_score(algorithm, img, img) == SCALE,
        forall|x: int, y: int|
            0 <= x < img.width && 0 <= y < img.height ==> #[trigger] gray_value(
                algorithm,
                img,
                img,
                x,
                y,
            ) == SCALE,
{
    assert(img.width * img.height >= 1) by (nonlinear_arith)
        requires
            img.width >= 1,
            img.height >= 1,
    ;
    lemma_rms_identity(img.samples);
    lemma_ssim_identity_of_image(img);
    assert forall|x: int, y: int| 0 <= x < img.width && 0 <= y < img.height implies
        #[trigger] gray_value(
        algorithm,
        img,
        img,
        x,
        y,
    ) == SCALE by {
        lemma_rms_value_bounds(img.at(x, y), img.at(x, y));
    }
}

/// Neither the score nor the map depends on which of two images of one size
/// comes first.
pub proof fn lemma_symmetry(algorithm: Algorithm, first: Raster, second: Raster)
    requires
        first.wf(),
        second.wf(),
        first.width == second.width,
        first.height == second.height,
    ensures
        gray_score(algorithm, first, second) == gray_score(algorithm, second, first),
        forall|x: int, y: int| #[trigger]
            gray_value(algorithm, first, second, x, y) == gray_value(
                algorithm,
                second,
                first,
                x,
                y,
            ),
{
    lemma_rms_symmetric(first.samples, second.samples);
    lemma_ssim_symmetric_of_images(first, second);
    assert forall|x: int, y: int| #[trigger]
        gray_value(algorithm, first, second, x, y) == gray_value(
            algorithm,
            second,
            first,
            x,
            y,
        ) by {
        lemma_rms_value_bounds(first.at(x, y), second.at(x, y));
    }
}

/// By sample-wise comparison, score and map lie between zero and one; by
/// structure, between minus one and one.
pub proof fn lemma_bounds(algorithm: Algorithm, first: Raster, second: Raster)
    requires
        first.wf(),
        second.wf(),
        first.width == second.width,
        first.height == second.height,
        first.width >= 1,
        first.height >= 1,
    ensures
        -SCALE <= gray_score(algorithm, first, second) <= SCALE,
        algorithm is RootMeanSquared ==> 0 <= gray_score(algorithm, first, second),
        forall|x: int, y: int|
            0 <= x < first.width && 0 <= y < first.height ==> -SCALE <= #[trigger] gray_value(
                algorithm,
                first,
                second,
                x,
                y,
            ) <= SCALE,
        forall|x: int, y: int|
            algorithm is RootMeanSquared ==> 0 <= #[trigger] gray_value(
                algorithm,
                first,
                second,
                x,
                y,
            ),
{
    assert(first.width * first.height >= 1) by (nonlinear_arith)
        requires
            first.width >= 1,
            first.height >= 1,
    ;
    lemma_rms_score_bounds(first.samples, second.samples);
    lemma_ssim_score_bounds(first, second);
    lemma_ssim_plane_bounds(first, second);
    assert forall|x: int, y: int|
        0 <= x < first.width && 0 <= y < first.height implies -SCALE <= #[trigger] gray_value(
        algorithm,
        first,
        second,
        x,
        y,
    ) <= SCALE by {
        lemma_rms_value_bounds(first.at(x, y), second.at(x, y));
    }
    assert forall|x: int, y: int|
        algorithm is RootMeanSquared implies 0 <= #[trigger] gray_value(
        algorithm,
        first,
        second,
        x,
        y,
    ) by {
        lemma_rms_value_bounds(first.at(x, y), second.at(x, y));
    }
}

} // verus!
