//! Similarity maps as 8-bit images for the eye.

use crate::fixed::SCALE;
use crate::hybrid::unit;
use crate::images::{
    gray_height, gray_samples, gray_width, rgb_height, rgb_samples, rgb_width, rgba_height,
    rgba_samples, rgba_width, GrayImage, RgbImage, RgbaImage,
};
use crate::similarity::{SimilarityImage, SimilarityPlane};
use vstd::prelude::*;

verus! {

/// A similarity map turned into an image for the eye.
pub enum ColorMap {
    Gray(GrayImage),
    RGB(RgbImage),
    RGBA(RgbaImage),
}

/// The level that stands for the value `v`: `v` is held within zero and one
/// and stretched to `[0, 255]`, rounded down.
pub open spec fn color_level(v: int) -> int {
    255 * unit(v) / (SCALE as int)
}

/// The levels that stand for the values `data`, one for one.
pub open spec fn color_levels(data: Seq<i64>) -> Seq<u8> {
    Seq::new(data.len(), |i: int| color_level(data[i] as int) as u8)
}

/// A level is a sample: it lies between 0 and 255, and is 255 for one.
pub proof fn lemma_color_level(v: int)
    ensures
        0 <= color_level(v) <= 255,
        v >= SCALE ==> color_level(v) == 255,
        v <= 0 ==> color_level(v) == 0,
{
    let u = unit(v);
    assert(0 <= 255 * u / 1_000_000_000 <= 255 && (u == 1_000_000_000 ==> 255 * u / 1_000_000_000
        == 255) && (u == 0 ==> 255 * u / 1_000_000_000 == 0)) by (nonlinear_arith)
        requires
            0 <= u <= 1_000_000_000,
    ;
}

fn level_of(v: i64) -> (r: u8)
    ensures
        r == color_level(v as int),
{
    proof {
        lemma_color_level(v as int);
    }
    let held: i64 = if v < 0 {
        0
    } else if v > SCALE {
        SCALE
    } else {
        v
    };
    (255 * held / SCALE) as u8
}

fn levels_of(plane: &SimilarityPlane) -> (r: Vec<u8>)
    ensures
        r@ == color_levels(plane.data@),
{
    let mut levels: Vec<u8> = Vec::new();
    let mut i: usize = 0;
    while i < plane.data.len()
        invariant
            i <= plane.data@.len(),
            levels@.len() == i,
            forall|k: int| 0 <= k < i ==>
                #[trigger] levels@[k] == color_level(plane.data@[k] as int),
        decreases plane.data@.len() - i,
    {
        levels.push(level_of(plane.data[i]));
        i = i + 1;
    }
    assert(levels@ =~= color_levels(plane.data@));
    levels
}

impl SimilarityImage {
    /// The map as an image for the eye: as many samples to a pixel as the
    /// map has values, each the level that stands for its value.
    pub fn to_color_map(&self) -> (r: ColorMap)
        requires
            self.wf(),
            self.plane().channels * self.plane().width <= usize::MAX,
        ensures
            match r {
                ColorMap::Gray(img) => {
                    &&& *self is Gray
                    &&& img.wf()
                    &&& gray_width(img) == self.plane().width
                    &&& gray_height(img) == self.plane().height
                    &&& gray_samples(img) == color_levels(self.plane().data@)
                },
                ColorMap::RGB(img) => {
                    &&& *self is RGB
                    &&& img.wf()
                    &&& rgb_width(img) == self.plane().width
                    &&& rgb_height(img) == self.plane().height
                    &&& rgb_samples(img) == color_levels(self.plane().data@)
                },
                ColorMap::RGBA(img) => {
                    &&& *self is RGBA
                    &&& img.wf()
                    &&& rgba_width(img) == self.plane().width
                    &&& rgba_height(img) == self.plane().height
                    &&& rgba_samples(img) == color_levels(self.plane().data@)
                },
            },
    {
        match self {
            SimilarityImage::Gray(plane) => {
                let levels = levels_of(plane);
                proof {
                    let w = plane.width as int;
                    let h = plane.height as int;
                    assert(w * h * 1 == w * h) by (nonlinear_arith);
                    assert(levels@.subrange(0, w * h) =~= levels@);
                }
                ColorMap::Gray(GrayImage::from_raw(plane.width, plane.height, levels).unwrap())
            },
            SimilarityImage::RGB(plane) => {
                let levels = levels_of(plane);
                proof {
                    let w = plane.width as int;
                    let h = plane.height as int;
                    assert(w * h * 3 == 3 * w * h) by (nonlinear_arith);
                    assert(levels@.subrange(0, 3 * w * h) =~= levels@);
                }
                ColorMap::RGB(RgbImage::from_raw(plane.width, plane.height, levels).unwrap())
            },
            SimilarityImage::RGBA(plane) => {
                let levels = levels_of(plane);
                proof {
                    let w = plane.width as int;
                    let h = plane.height as int;
                    assert(w * h * 4 == 4 * w * h) by (nonlinear_arith);
                    assert(levels@.subrange(0, 4 * w * h) =~= levels@);
                }
                ColorMap::RGBA(RgbaImage::from_raw(plane.width, plane.height, levels).unwrap())
            },
        }
    }
}

} // verus!
