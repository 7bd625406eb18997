//! The grey levels of an image laid out tile after tile, so that the
//! statistics of a tile are read from one stretch of memory, and the
//! structural comparison from two such layouts. Once made, a layout serves
//! any number of comparisons.

use crate::fixed::SCALE;
use crate::images::{gray_height, gray_width, GrayImage, Raster};
use crate::similarity::SimilarityPlane;
use crate::ssim::{
    central, fill_and_score, image_tiles, lemma_window_area_positive, ssim_from_statistics,
    ssim_plane_value, ssim_score, ssim_value, tile_values, whole_window, window_values, Ratio,
    MAX_WINDOW_AREA,
};
use crate::stats::{co_moment, dot_to, lemma_sums_bounded, sum, sum_to};
use crate::similarity::lemma_pixel_of_index;
use crate::window::{
    lemma_pixel_inside, lemma_scan_covers, lemma_tile_at, lemma_tiles_area, lemma_tiles_partition,
    lemma_total_area_take, total_area, Window, DEFAULT_WINDOW_SIZE,
};
use crate::CompareError;
use vstd::prelude::*;

verus! {

/// What is kept of one tile: where its grey levels stand in the buffer that
/// holds the levels of all tiles, and their sum.
#[derive(Clone, Copy, Debug)]
pub struct WindowCache {
    pub window: Window,
    pub data_offset: usize,
    pub sum: u64,
}

/// The tiles of an image with their grey levels laid out tile after tile,
/// each tile in its scan order.
pub struct LinearAccelerator {
    pub windows: Vec<WindowCache>,
    pub buffer: Vec<u8>,
    pub width: u32,
    pub height: u32,
}

impl WindowCache {
    /// The grey levels that `data` holds for this tile.
    pub open spec fn values(&self, data: Seq<u8>) -> Seq<int> {
        Seq::new(self.window.spec_area() as nat, |k: int| data[self.data_offset + k] as int)
    }

    /// The tile is small enough for its statistics, `data` holds its levels,
    /// and `sum` is their sum.
    pub open spec fn wf(&self, data: Seq<u8>) -> bool {
        &&& self.window.wf()
        &&& self.window.spec_area() <= MAX_WINDOW_AREA
        &&& self.data_offset + self.window.spec_area() <= data.len()
        &&& self.sum == sum(self.values(data))
    }

    /// The mean grey level of the tile: the sum kept for it over its area.
    pub fn mean(&self) -> (r: Ratio)
        requires
            self.window.wf(),
        ensures
            r.num == self.sum,
            r.den == self.window.spec_area(),
            r.den > 0,
    {
        proof {
            lemma_window_area_positive(self.window);
        }
        Ratio { num: self.sum as i128, den: self.window.area() as i128 }
    }

    /// The variance of the grey levels of the tile, which `data` holds.
    pub fn variance(&self, data: &[u8]) -> (r: Ratio)
        requires
            self.wf(data@),
        ensures
            r.num == co_moment(self.values(data@), self.values(data@)),
            r.den == self.window.spec_area() * self.window.spec_area(),
            r.den > 0,
    {
        self.covariance(data, self, data)
    }

    /// The covariance of the grey levels of this tile, which `data` holds,
    /// and those of a tile of the same area, which `other_data` holds.
    pub fn covariance(&self, data: &[u8], other: &WindowCache, other_data: &[u8]) -> (r: Ratio)
        requires
            self.wf(data@),
            other.wf(other_data@),
            other.window.spec_area() == self.window.spec_area(),
        ensures
            r.num == co_moment(self.values(data@), other.values(other_data@)),
            r.den == self.window.spec_area() * self.window.spec_area(),
            r.den > 0,
    {
        let ghost xs = self.values(data@);
        let ghost ys = other.values(other_data@);
        let area: u64 = self.window.area();
        let len: usize = data.len();
        let other_len: usize = other_data.len();
        let mut products: u64 = 0;
        let mut k: usize = 0;
        proof {
            lemma_window_area_positive(self.window);
        }
        while k < area as usize
            invariant
                len == data@.len(),
                other_len == other_data@.len(),
                self.wf(data@),
                other.wf(other_data@),
                xs == self.values(data@),
                ys == other.values(other_data@),
                area == self.window.spec_area(),
                area == other.window.spec_area(),
                area <= MAX_WINDOW_AREA,
                k <= area,
                products == dot_to(xs, ys, k as int),
            decreases area - k,
        {
            proof {
                lemma_sums_bounded(xs, ys, k as int);
                lemma_sums_bounded(xs, ys, k as int + 1);
            }
            let p: u64 = data[self.data_offset + k] as u64;
            let q: u64 = other_data[other.data_offset + k] as u64;
            assert(p == xs[k as int] && q == ys[k as int]);
            assert(p * q <= 65025) by (nonlinear_arith)
                requires
                    p <= 255,
                    q <= 255,
            ;
            products = products + p * q;
            k = k + 1;
        }
        proof {
            lemma_sums_bounded(xs, ys, area as int);
            lemma_sums_bounded(ys, xs, area as int);
        }
        central(area, self.sum, other.sum, products)
    }
}

/// The structural similarity of two tiles of one place from what is kept of
/// them.
pub fn ssim_for_cached_windows(
    first: &WindowCache,
    second: &WindowCache,
    first_data: &[u8],
    second_data: &[u8],
) -> (v: i64)
    requires
        first.wf(first_data@),
        second.wf(second_data@),
        first.window == second.window,
    ensures
        v == ssim_value(first.values(first_data@), second.values(second_data@)),
        -SCALE <= v <= SCALE,
{
    let mean_x = first.mean();
    let mean_y = second.mean();
    let variance_x = first.variance(first_data);
    let variance_y = second.variance(second_data);
    let covariance = first.covariance(first_data, second, second_data);
    proof {
        lemma_window_area_positive(first.window);
    }
    ssim_from_statistics(
        mean_x,
        mean_y,
        variance_x,
        variance_y,
        covariance,
        Ghost(first.values(first_data@)),
        Ghost(second.values(second_data@)),
    )
}

impl LinearAccelerator {
    /// The accelerator holds the tiles of `image`, in their order, each with
    /// its grey levels and their sum.
    pub open spec fn describes(&self, image: Raster) -> bool {
        &&& self.windows@.len() == image_tiles(image).len()
        &&& self.buffer@.len() == image.width * image.height
        &&& forall|i: int|
            0 <= i < image_tiles(image).len() ==> {
                &&& (#[trigger] self.windows@[i]).window == image_tiles(image)[i]
                &&& self.windows@[i].data_offset == total_area(image_tiles(image).take(i))
                &&& self.windows@[i].wf(self.buffer@)
                &&& self.windows@[i].values(self.buffer@) == window_values(
                    image,
                    image_tiles(image)[i],
                )
            }
    }

    /// The grey level that the accelerator holds for the pixel `(x, y)`: the
    /// one at the pixel's place in the levels of its tile.
    pub open spec fn sample_at(&self, x: int, y: int) -> u8 {
        let cache = self.windows@[whole_window(self.width as int, self.height as int).tile_index(
            DEFAULT_WINDOW_SIZE as int,
            x,
            y,
        )];
        self.buffer@[cache.data_offset + cache.window.scan_index(x, y)]
    }

    /// The image of which the accelerator holds the grey levels.
    pub open spec fn raster(&self) -> Raster {
        Raster {
            width: self.width as nat,
            height: self.height as nat,
            samples: Seq::new(
                (self.width * self.height) as nat,
                |k: int| self.sample_at(k % (self.width as int), k / (self.width as int)),
            ),
        }
    }

    /// The accelerator holds the tiles of an image that has a pixel.
    pub open spec fn wf(&self) -> bool {
        &&& self.width >= 1
        &&& self.height >= 1
        &&& self.describes(self.raster())
    }

    /// Cuts `image`, which has a pixel, into tiles and lays their grey levels
    /// out tile after tile.
    pub fn mk_cached_subdivision(image: &GrayImage) -> (acc: LinearAccelerator)
        requires
            gray_width(*image) >= 1,
            gray_height(*image) >= 1,
        ensures
            acc.wf(),
            acc.raster() == image@,
    {
        let (width, height) = image.dimensions();
        let whole = Window::from_image(image);
        let windows = whole.subdivide_by_offset(DEFAULT_WINDOW_SIZE);
        let ghost tiles = image_tiles(image@);
        let ghost edge = DEFAULT_WINDOW_SIZE as int;
        let mut caches: Vec<WindowCache> = Vec::new();
        let mut buffer: Vec<u8> = Vec::new();
        let mut i: usize = 0;
        proof {
            assert(whole == whole_window(width as int, height as int));
            lemma_tiles_area(whole, edge);
            assert(tiles.take(0).len() == 0);
            assert forall|k: int| 0 <= k < tiles.len() implies (#[trigger] tiles[k]).wf() by {
                lemma_tile_at(whole, edge, k);
            }
        }
        while i < windows.len()
            invariant
                width == gray_width(*image),
                height == gray_height(*image),
                width >= 1,
                height >= 1,
                whole == whole_window(width as int, height as int),
                whole.wf(),
                edge == DEFAULT_WINDOW_SIZE as int,
                windows@ == tiles,
                tiles == image_tiles(image@),
                tiles == whole.tiles(edge),
                forall|k: int| 0 <= k < tiles.len() ==> (#[trigger] tiles[k]).wf(),
                total_area(tiles) == width * height,
                0 <= i <= windows.len(),
                caches@.len() == i,
                buffer@.len() == total_area(tiles.take(i as int)),
                forall|m: int|
                    0 <= m < i ==> {
                        &&& (#[trigger] caches@[m]).window == tiles[m]
                        &&& caches@[m].data_offset == total_area(tiles.take(m))
                        &&& caches@[m].data_offset + tiles[m].spec_area() <= buffer@.len()
                        &&& caches@[m].sum == sum(window_values(image@, tiles[m]))
                        &&& forall|k: int|
                            0 <= k < tiles[m].spec_area() ==>
                                #[trigger] buffer@[caches@[m].data_offset
                                + k] as int == window_values(image@, tiles[m])[k]
                    },
            decreases windows.len() - i,
        {
            let window: Window = windows[i];
            let offset: usize = buffer.len();
            let ghost levels = window_values(image@, window);
            proof {
                lemma_tile_at(whole, edge, i as int);
                lemma_total_area_take(tiles, i as int);
            }
            let area: u64 = window.area();
            let mut it = window.iter_pixels();
            let mut sum_here: u64 = 0;
            let mut k: u64 = 0;
            let ghost before = buffer@;
            while k < area
                invariant
                    width == gray_width(*image),
                    height == gray_height(*image),
                    window.within(width as int, height as int),
                    levels == window_values(image@, window),
                    area == window.spec_area(),
                    area <= 64,
                    it.wf(),
                    it.window == window,
                    it.current_index == k,
                    k <= area,
                    offset == before.len(),
                    buffer@.len() == offset + k,
                    buffer@.take(offset as int) == before,
                    sum_here == sum_to(levels, k as int),
                    forall|j: int| 0 <= j < k ==>
                        #[trigger] buffer@[offset + j] as int == levels[j],
                decreases area - k,
            {
                proof {
                    lemma_sums_bounded(levels, levels, k as int);
                    lemma_pixel_inside(window, k as int);
                }
                let ghost pending = it.remaining();
                let found = it.next();
                assert(pending[0] == window.pixel(k as int));
                let at = found.unwrap();
                let level: u8 = image.get_pixel(at.0, at.1);
                assert(level == levels[k as int]);
                let ghost earlier = buffer@;
                buffer.push(level);
                assert(buffer@.take(offset as int) =~= earlier.take(offset as int));
                sum_here = sum_here + level as u64;
                k = k + 1;
            }
            caches.push(WindowCache { window, data_offset: offset, sum: sum_here });
            proof {
                assert forall|m: int| 0 <= m < i + 1 implies {
                    &&& (#[trigger] caches@[m]).window == tiles[m]
                    &&& caches@[m].data_offset == total_area(tiles.take(m))
                    &&& caches@[m].data_offset + tiles[m].spec_area() <= buffer@.len()
                    &&& caches@[m].sum == sum(window_values(image@, tiles[m]))
                    &&& forall|k: int|
                        0 <= k < tiles[m].spec_area() ==> #[trigger] buffer@[caches@[m].data_offset
                            + k] as int == window_values(image@, tiles[m])[k]
                } by {
                    if m < i {
                        assert forall|k: int| 0 <= k < tiles[m].spec_area() implies
                            #[trigger] buffer@[caches@[m].data_offset
                            + k] as int == window_values(image@, tiles[m])[k] by {
                            assert(buffer@[caches@[m].data_offset + k] == buffer@.take(
                                offset as int,
                            )[caches@[m].data_offset + k]);
                            assert(before[caches@[m].data_offset + k] as int == window_values(
                                image@,
                                tiles[m],
                            )[k]);
                        }
                    }
                }
            }
            i = i + 1;
        }
        let acc = LinearAccelerator { windows: caches, buffer, width, height };
        proof {
            assert(tiles.take(i as int) =~= tiles);
            assert forall|m: int| 0 <= m < tiles.len() implies {
                &&& (#[trigger] acc.windows@[m]).window == tiles[m]
                &&& acc.windows@[m].data_offset == total_area(tiles.take(m))
                &&& acc.windows@[m].wf(acc.buffer@)
                &&& acc.windows@[m].values(acc.buffer@) == window_values(image@, tiles[m])
            } by {
                lemma_tile_at(whole, edge, m);
                assert(acc.windows@[m].values(acc.buffer@) =~= window_values(image@, tiles[m]));
            }
            assert(acc.describes(image@));
            assert forall|k: int| 0 <= k < width * height implies acc.raster().samples[k]
                == image@.samples[k] by {
                lemma_pixel_of_index(k, width as int, height as int);
                let x = k % (width as int);
                let y = k / (width as int);
                assert(whole.contains(x, y));
                lemma_tiles_partition(whole, edge, x, y);
                let t = whole.tile_index(edge, x, y);
                lemma_tile_at(whole, edge, t);
                lemma_scan_covers(tiles[t], x, y);
                let place = tiles[t].scan_index(x, y);
                assert(acc.windows@[t].values(acc.buffer@)[place] == window_values(
                    image@,
                    tiles[t],
                )[place]);
                assert(image@.at(x, y) == image@.samples[k]);
            }
            assert(acc.raster().samples =~= image@.samples);
        }
        acc
    }
}

/// Compares by structural similarity the two images of one size of which
/// `one` and `other` hold the grey levels.
///
/// Every pixel of the plane holds the value of its tile; the score is the
/// mean of the values by the area of the tiles.
pub fn ssim_accelerated(one: &LinearAccelerator, other: &LinearAccelerator) -> (found: (
    i64,
    SimilarityPlane,
))
    requires
        one.wf(),
        other.wf(),
        one.width == other.width,
        one.height == other.height,
    ensures
        found.0 == ssim_score(one.raster(), other.raster()),
        -SCALE <= found.0 <= SCALE,
        found.1.wf(),
        found.1.channels == 1,
        found.1.width == one.width,
        found.1.height == one.height,
        forall|x: int, y: int|
            0 <= x < one.width && 0 <= y < one.height ==> #[trigger] found.1.value(x, y, 0)
                == ssim_plane_value(one.raster(), other.raster(), x, y),
{
    let width: u32 = one.width;
    let height: u32 = one.height;
    let ghost first = one.raster();
    let ghost second = other.raster();
    let ghost tiles = image_tiles(first);
    let ghost whole = whole_window(width as int, height as int);
    assert(image_tiles(second) == tiles);
    let mut values: Vec<i64> = Vec::new();
    let mut windows: Vec<Window> = Vec::new();
    let mut i: usize = 0;
    while i < one.windows.len()
        invariant
            one.describes(first),
            other.describes(second),
            tiles == image_tiles(first),
            tiles == image_tiles(second),
            0 <= i <= one.windows.len(),
            values@.len() == i,
            windows@.len() == i,
            forall|k: int| 0 <= k < i ==> #[trigger] windows@[k] == tiles[k],
            forall|k: int| 0 <= k < i ==> #[trigger] values@[k] == tile_values(first, second)[k],
            forall|k: int| 0 <= k < i ==> -SCALE <= #[trigger] values@[k] <= SCALE,
        decreases one.windows.len() - i,
    {
        let value = ssim_for_cached_windows(
            &one.windows[i],
            &other.windows[i],
            one.buffer.as_slice(),
            other.buffer.as_slice(),
        );
        windows.push(one.windows[i].window);
        values.push(value);
        i = i + 1;
    }
    proof {
        assert(windows@ =~= tiles);
        assert(one.buffer.len() == width * height);
    }
    let found = fill_and_score(&values, &windows, width, height);
    proof {
        assert(values@.map_values(|v: i64| v as int) =~= tile_values(first, second));
        assert forall|x: int, y: int| 0 <= x < width && 0 <= y < height implies
            #[trigger] found.1.value(x, y, 0) == ssim_plane_value(first, second, x, y) by {
            assert(whole.contains(x, y));
            lemma_tiles_partition(whole, DEFAULT_WINDOW_SIZE as int, x, y);
        }
    }
    found
}

/// Compares two grey images of one size by structural similarity as
/// `ssim_simple` does, from the grey levels laid out tile after tile.
pub fn ssim_cached(first: &GrayImage, second: &GrayImage) -> (r: Result<
    (i64, SimilarityPlane),
    CompareError,
>)
    requires
        gray_width(*first) == gray_width(*second),
        gray_height(*first) == gray_height(*second),
    ensures
        r is Err <==> gray_width(*first) * gray_height(*first) == 0,
        r matches Err(e) ==> e is CalculationFailed,
        r matches Ok(found) ==> {
            &&& found.0 == ssim_score(first@, second@)
            &&& -SCALE <= found.0 <= SCALE
            &&& found.1.wf()
            &&& found.1.channels == 1
            &&& found.1.width == gray_width(*first)
            &&& found.1.height == gray_height(*first)
            &&& forall|x: int, y: int|
                0 <= x < gray_width(*first) && 0 <= y < gray_height(*first)
                    ==> #[trigger] found.1.value(x, y, 0) == ssim_plane_value(
                    first@,
                    second@,
                    x,
                    y,
                )
        },
{
    let (width, height) = first.dimensions();
    if width == 0 || height == 0 {
        assert(width * height == 0) by (nonlinear_arith)
            requires
                width == 0 || height == 0,
        ;
        return Err(CompareError::CalculationFailed("the images have no pixel".to_owned()));
    }
    assert(width * height >= 1) by (nonlinear_arith)
        requires
            width >= 1,
            height >= 1,
    ;
    let one = LinearAccelerator::mk_cached_subdivision(first);
    let other = LinearAccelerator::mk_cached_subdivision(second);
    Ok(ssim_accelerated(&one, &other))
}

} // verus!
