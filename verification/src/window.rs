//! Rectangles of pixels, the walk over the pixels of one, and the grid of
//! tiles into which one is cut.

use crate::fixed::min2;
use crate::images::{gray_height, gray_width, GrayImage};
use vstd::arithmetic::div_mod::{
    lemma_fundamental_div_mod, lemma_fundamental_div_mod_converse,
};
use vstd::prelude::*;

verus! {

/// Edge of the square tiles over which structural similarity is taken.
pub const DEFAULT_WINDOW_SIZE: u32 = 8;

/// A closed rectangle of pixel coordinates: both corners belong to it.
#[derive(Clone, Copy, Debug)]
pub struct Window {
    pub top_left: (u32, u32),
    pub bottom_right: (u32, u32),
}

/// The number of pieces of length `edge` needed to cover `len`.
pub open spec fn ceil_div(len: int, edge: int) -> int {
    (len + edge - 1) / edge
}

/// The sum of the areas of `ws`.
pub open spec fn total_area(ws: Seq<Window>) -> int
    decreases ws.len(),
{
    if ws.len() == 0 {
        0
    } else {
        total_area(ws.drop_last()) + ws.last().spec_area()
    }
}

impl Window {
    /// The corners are ordered on both axes, and width and height fit a `u32`.
    pub open spec fn wf(&self) -> bool {
        &&& self.top_left.0 <= self.bottom_right.0
        &&& self.top_left.1 <= self.bottom_right.1
        &&& self.bottom_right.0 - self.top_left.0 < u32::MAX
        &&& self.bottom_right.1 - self.top_left.1 < u32::MAX
    }

    /// The number of pixel columns.
    pub open spec fn spec_width(&self) -> int {
        self.bottom_right.0 - self.top_left.0 + 1
    }

    /// The number of pixel rows.
    pub open spec fn spec_height(&self) -> int {
        self.bottom_right.1 - self.top_left.1 + 1
    }

    /// The number of pixels.
    pub open spec fn spec_area(&self) -> int {
        self.spec_width() * self.spec_height()
    }

    /// The pixel `(x, y)` lies in the window.
    pub open spec fn contains(&self, x: int, y: int) -> bool {
        &&& self.top_left.0 <= x <= self.bottom_right.0
        &&& self.top_left.1 <= y <= self.bottom_right.1
    }

    /// The window lies inside an image of `width` by `height` pixels.
    pub open spec fn within(&self, width: int, height: int) -> bool {
        &&& self.wf()
        &&& self.bottom_right.0 < width
        &&& self.bottom_right.1 < height
    }

    /// The `k`-th pixel of the window in scan order: rows from the top, each
    /// row from the left.
    pub open spec fn pixel(&self, k: int) -> (int, int) {
        (self.top_left.0 + k % self.spec_width(), self.top_left.1 + k / self.spec_width())
    }

    /// The place of the pixel `(x, y)` in the scan order of the window.
    pub open spec fn scan_index(&self, x: int, y: int) -> int {
        (y - self.top_left.1) * self.spec_width() + (x - self.top_left.0)
    }

    /// Columns of the grid that cuts the window into tiles of `edge`.
    pub open spec fn tile_cols(&self, edge: int) -> int {
        ceil_div(self.spec_width(), edge)
    }

    /// Rows of the grid that cuts the window into tiles of `edge`.
    pub open spec fn tile_rows(&self, edge: int) -> int {
        ceil_div(self.spec_height(), edge)
    }

    /// The tile in column `col` and row `row` of the grid: `edge` pixels on
    /// each side, from the window's top-left corner, cut off at its
    /// bottom-right corner.
    pub open spec fn tile(&self, edge: int, col: int, row: int) -> Window {
        Window {
            top_left: (
                (self.top_left.0 + col * edge) as u32,
                (self.top_left.1 + row * edge) as u32,
            ),
            bottom_right: (
                min2(self.top_left.0 + (col + 1) * edge - 1, self.bottom_right.0 as int) as u32,
                min2(self.top_left.1 + (row + 1) * edge - 1, self.bottom_right.1 as int) as u32,
            ),
        }
    }

    /// All tiles of the grid, row after row, each row from the left.
    pub open spec fn tiles(&self, edge: int) -> Seq<Window> {
        Seq::new(
            (self.tile_cols(edge) * self.tile_rows(edge)) as nat,
            |i: int| self.tile(edge, i % self.tile_cols(edge), i / self.tile_cols(edge)),
        )
    }

    /// The place in `tiles(edge)` of the tile that holds the pixel `(x, y)`.
    pub open spec fn tile_index(&self, edge: int, x: int, y: int) -> int {
        ((y - self.top_left.1) / edge) * self.tile_cols(edge) + (x - self.top_left.0) / edge
    }

    /// The window from `top_left` to `bottom_right`, which lies neither left
    /// of nor above `top_left`.
    pub fn new(top_left: (u32, u32), bottom_right: (u32, u32)) -> (w: Window)
        requires
            top_left.0 <= bottom_right.0,
            top_left.1 <= bottom_right.1,
        ensures
            w.top_left == top_left,
            w.bottom_right == bottom_right,
            w.wf() <==> w.spec_width() <= u32::MAX && w.spec_height() <= u32::MAX,
    {
        Window { top_left, bottom_right }
    }

    /// The number of pixel columns.
    pub fn width(&self) -> (w: u32)
        requires
            self.wf(),
        ensures
            w == self.spec_width(),
    {
        self.bottom_right.0 - self.top_left.0 + 1
    }

    /// The number of pixel rows.
    pub fn height(&self) -> (h: u32)
        requires
            self.wf(),
        ensures
            h == self.spec_height(),
    {
        self.bottom_right.1 - self.top_left.1 + 1
    }

    /// The number of pixels.
    pub fn area(&self) -> (a: u64)
        requires
            self.wf(),
        ensures
            a == self.spec_area(),
    {
        let w: u64 = self.width() as u64;
        let h: u64 = self.height() as u64;
        assert(w * h <= u64::MAX) by (nonlinear_arith)
            requires
                w <= u32::MAX,
                h <= u32::MAX,
        ;
        w * h
    }

    /// The window that covers the whole of `image`, which has a pixel.
    pub fn from_image(image: &GrayImage) -> (w: Window)
        requires
            gray_width(*image) > 0,
            gray_height(*image) > 0,
        ensures
            w.top_left == (0u32, 0u32),
            w.bottom_right.0 == gray_width(*image) - 1,
            w.bottom_right.1 == gray_height(*image) - 1,
            w.wf(),
    {
        let (width, height) = image.dimensions();
        Window { top_left: (0, 0), bottom_right: (width - 1, height - 1) }
    }

    /// Cuts the window into tiles of `offset` pixels on each side, the last
    /// column and the last row cut off at the window's border.
    pub fn subdivide_by_offset(&self, offset: u32) -> (r: Vec<Window>)
        requires
            self.wf(),
            offset >= 1,
        ensures
            r@ == self.tiles(offset as int),
    {
        let mut result: Vec<Window> = Vec::new();
        let left: u64 = self.top_left.0 as u64;
        let top: u64 = self.top_left.1 as u64;
        let right: u64 = self.bottom_right.0 as u64;
        let bottom: u64 = self.bottom_right.1 as u64;
        let edge: u64 = offset as u64;
        let ghost cols = self.tile_cols(edge as int);
        let ghost rows = self.tile_rows(edge as int);
        let ghost mut j: int = 0;
        let ghost mut base: int = 0;
        let mut y: u64 = top;
        proof {
            lemma_ceil_div(self.spec_width(), edge as int, 0);
            lemma_ceil_div(self.spec_height(), edge as int, 0);
        }
        while y <= bottom
            invariant
                self.wf(),
                edge == offset,
                edge >= 1,
                left == self.top_left.0,
                top == self.top_left.1,
                right == self.bottom_right.0,
                bottom == self.bottom_right.1,
                cols == self.tile_cols(edge as int),
                rows == self.tile_rows(edge as int),
                cols >= 1,
                0 <= j <= rows,
                y == top + j * edge,
                y <= bottom + edge,
                base == j * cols,
                result@.len() == base,
                forall|k: int|
                    0 <= k < result@.len() ==> result@[k] == self.tile(
                        edge as int,
                        k % cols,
                        k / cols,
                    ),
            decreases bottom + edge - y,
        {
            let ghost mut i: int = 0;
            let mut x: u64 = left;
            proof {
                lemma_ceil_div(self.spec_height(), edge as int, j);
            }
            while x <= right
                invariant
                    self.wf(),
                    edge == offset,
                    edge >= 1,
                    left == self.top_left.0,
                    top == self.top_left.1,
                    right == self.bottom_right.0,
                    bottom == self.bottom_right.1,
                    cols == self.tile_cols(edge as int),
                    rows == self.tile_rows(edge as int),
                    cols >= 1,
                    0 <= j < rows,
                    y == top + j * edge,
                    y <= bottom,
                    base == j * cols,
                    0 <= i <= cols,
                    x == left + i * edge,
                    x <= right + edge,
                    result@.len() == base + i,
                    forall|k: int|
                        0 <= k < result@.len() ==> result@[k] == self.tile(
                            edge as int,
                            k % cols,
                            k / cols,
                        ),
                decreases right + edge - x,
            {
                let x_end: u64 = if x + edge - 1 < right {
                    x + edge - 1
                } else {
                    right
                };
                let y_end: u64 = if y + edge - 1 < bottom {
                    y + edge - 1
                } else {
                    bottom
                };
                let tile = Window {
                    top_left: (x as u32, y as u32),
                    bottom_right: (x_end as u32, y_end as u32),
                };
                proof {
                    lemma_ceil_div(self.spec_width(), edge as int, i);
                    lemma_fundamental_div_mod_converse(base + i, cols, j, i);
                    assert((i + 1) * edge == i * edge + edge) by (nonlinear_arith);
                    assert((j + 1) * edge == j * edge + edge) by (nonlinear_arith);
                    assert(tile == self.tile(edge as int, i, j));
                }
                result.push(tile);
                x = x + edge;
                proof {
                    i = i + 1;
                }
            }
            proof {
                lemma_ceil_div(self.spec_width(), edge as int, i);
                assert(i == cols);
                assert((j + 1) * cols == j * cols + cols) by (nonlinear_arith);
                assert((j + 1) * edge == j * edge + edge) by (nonlinear_arith);
                base = base + cols;
                j = j + 1;
            }
            y = y + edge;
        }
        proof {
            lemma_ceil_div(self.spec_height(), edge as int, j);
            assert(j == rows);
            assert(j * cols == cols * rows) by (nonlinear_arith)
                requires
                    j == rows,
            ;
            assert(result@ =~= self.tiles(edge as int));
        }
        result
    }

    /// A walk over the pixels of the window from its first pixel on.
    pub fn iter_pixels(&self) -> (it: WindowIter)
        requires
            self.wf(),
        ensures
            it.window == *self,
            it.current_index == 0,
            it.wf(),
    {
        WindowIter { current_index: 0, window: *self }
    }
}

/// A walk over the pixels of a window in scan order.
pub struct WindowIter {
    pub current_index: u64,
    pub window: Window,
}

impl WindowIter {
    /// The walk is over a window, and not past its end.
    pub open spec fn wf(&self) -> bool {
        &&& self.window.wf()
        &&& self.current_index <= self.window.spec_area()
    }

    /// The pixels still to come.
    pub open spec fn remaining(&self) -> Seq<(int, int)> {
        Seq::new(
            (self.window.spec_area() - self.current_index) as nat,
            |k: int| self.window.pixel(self.current_index + k),
        )
    }

    /// The next pixel, or `None` when all have been handed out.
    pub fn next(&mut self) -> (r: Option<(u32, u32)>)
        requires
            old(self).wf(),
        ensures
            final(self).wf(),
            final(self).window == old(self).window,
            old(self).remaining().len() == 0 ==> r is None && *final(self) == *old(self),
            old(self).remaining().len() > 0 ==> {
                &&& r matches Some(p)
                &&& (p.0 as int, p.1 as int) == old(self).remaining()[0]
                &&& final(self).window.contains(p.0 as int, p.1 as int)
                &&& final(self).remaining() == old(self).remaining().skip(1)
                &&& final(self).current_index == old(self).current_index + 1
            },
    {
        let width: u64 = self.window.width() as u64;
        let area: u64 = self.window.area();
        if self.current_index < area {
            let k: u64 = self.current_index;
            proof {
                lemma_pixel_inside(self.window, k as int);
            }
            let x: u32 = self.window.top_left.0 + (k % width) as u32;
            let y: u32 = self.window.top_left.1 + (k / width) as u32;
            self.current_index = k + 1;
            assert(self.remaining() =~= old(self).remaining().skip(1));
            Some((x, y))
        } else {
            None
        }
    }

    /// Passes over `n` pixels and hands out the one after them, or `None`
    /// when fewer than `n + 1` are left; all are used up then.
    pub fn nth(&mut self, n: u64) -> (r: Option<(u32, u32)>)
        requires
            old(self).wf(),
        ensures
            final(self).wf(),
            final(self).window == old(self).window,
            n >= old(self).remaining().len() ==> r is None && final(self).remaining().len() == 0,
            n < old(self).remaining().len() ==> {
                &&& r matches Some(p)
                &&& (p.0 as int, p.1 as int) == old(self).remaining()[n as int]
                &&& final(self).remaining() == old(self).remaining().skip(n + 1)
            },
    {
        let area: u64 = self.window.area();
        if n < area - self.current_index {
            self.current_index = self.current_index + n;
            assert(self.remaining() =~= old(self).remaining().skip(n as int));
            self.next()
        } else {
            self.current_index = area;
            None
        }
    }
}

/// The `k`-th pixel of a window lies in the window.
pub proof fn lemma_pixel_inside(w: Window, k: int)
    requires
        w.wf(),
        0 <= k < w.spec_area(),
    ensures
        0 <= k % w.spec_width() < w.spec_width(),
        0 <= k / w.spec_width() < w.spec_height(),
        w.contains(w.pixel(k).0, w.pixel(k).1),
{
    let width = w.spec_width();
    let height = w.spec_height();
    lemma_fundamental_div_mod(k, width);
    let q = k / width;
    let r = k % width;
    assert(0 <= r < width);
    assert(0 <= q < height) by (nonlinear_arith)
        requires
            k == width * q + r,
            0 <= r < width,
            0 <= k < width * height,
            width > 0,
    ;
}

/// The walk over a window comes to every pixel of the window, and to none
/// twice: the pixel `(x, y)` is the one at place `scan_index(x, y)`, and two
/// places with one pixel are one place.
pub proof fn lemma_scan_covers(w: Window, x: int, y: int)
    requires
        w.wf(),
        w.contains(x, y),
    ensures
        0 <= w.scan_index(x, y) < w.spec_area(),
        w.pixel(w.scan_index(x, y)) == (x, y),
        forall|k: int| 0 <= k < w.spec_area() && #[trigger] w.pixel(k) == (x, y) ==>
            k == w.scan_index(x, y),
{
    let width = w.spec_width();
    let height = w.spec_height();
    let dx = x - w.top_left.0;
    let dy = y - w.top_left.1;
    let at = w.scan_index(x, y);
    assert(0 <= at < width * height) by (nonlinear_arith)
        requires
            at == dy * width + dx,
            0 <= dx < width,
            0 <= dy < height,
    ;
    lemma_fundamental_div_mod_converse(at, width, dy, dx);
    assert forall|k: int| 0 <= k < w.spec_area() && #[trigger] w.pixel(k) == (x, y) implies k
        == at by {
        lemma_fundamental_div_mod(k, width);
        assert(k == at) by (nonlinear_arith)
            requires
                k == width * (k / width) + k % width,
                at == dy * width + dx,
                k % width == dx,
                k / width == dy,
        ;
    }
}

/// `ceil_div(len, edge)` pieces of `edge` cover `len`, and no fewer do.
pub proof fn lemma_ceil_div(len: int, edge: int, i: int)
    requires
        len >= 1,
        edge >= 1,
    ensures
        ceil_div(len, edge) >= 1,
        i < ceil_div(len, edge) <==> i * edge < len,
{
    let q = ceil_div(len, edge);
    let r = (len + edge - 1) % edge;
    lemma_fundamental_div_mod(len + edge - 1, edge);
    assert(len + edge - 1 == edge * q + r);
    assert(0 <= r < edge);
    assert(q >= 1) by (nonlinear_arith)
        requires
            len + edge - 1 == edge * q + r,
            0 <= r < edge,
            len >= 1,
            edge >= 1,
    ;
    assert(i < q <==> i * edge < len) by (nonlinear_arith)
        requires
            len + edge - 1 == edge * q + r,
            0 <= r < edge,
            edge >= 1,
    ;
}

/// Cutting `len` into pieces of `edge`: piece `i` is `edge` long, but the last
/// one holds what is left.
pub open spec fn piece_len(len: int, edge: int, i: int) -> int {
    min2(edge, len - i * edge)
}

/// Every tile of the grid is a window inside the window it was cut from, at
/// the place and with the extent that the grid gives it.
pub proof fn lemma_tile_shape(w: Window, edge: int, col: int, row: int)
    requires
        w.wf(),
        edge >= 1,
        0 <= col < w.tile_cols(edge),
        0 <= row < w.tile_rows(edge),
    ensures
        w.tile(edge, col, row).wf(),
        w.tile(edge, col, row).top_left.0 == w.top_left.0 + col * edge,
        w.tile(edge, col, row).top_left.1 == w.top_left.1 + row * edge,
        w.tile(edge, col, row).spec_width() == piece_len(w.spec_width(), edge, col),
        w.tile(edge, col, row).spec_height() == piece_len(w.spec_height(), edge, row),
        1 <= w.tile(edge, col, row).spec_width() <= edge,
        1 <= w.tile(edge, col, row).spec_height() <= edge,
        w.tile(edge, col, row).bottom_right.0 <= w.bottom_right.0,
        w.tile(edge, col, row).bottom_right.1 <= w.bottom_right.1,
{
    lemma_ceil_div(w.spec_width(), edge, col);
    lemma_ceil_div(w.spec_height(), edge, row);
    assert((col + 1) * edge == col * edge + edge) by (nonlinear_arith);
    assert((row + 1) * edge == row * edge + edge) by (nonlinear_arith);
    assert(col * edge >= 0) by (nonlinear_arith)
        requires
            col >= 0,
            edge >= 1,
    ;
    assert(row * edge >= 0) by (nonlinear_arith)
        requires
            row >= 0,
            edge >= 1,
    ;
}

/// The tiles leave no gap and do not overlap: a pixel of the window lies in
/// the tile at `tile_index`, and in no other.
pub proof fn lemma_tiles_partition(w: Window, edge: int, x: int, y: int)
    requires
        w.wf(),
        edge >= 1,
        w.contains(x, y),
    ensures
        0 <= w.tile_index(edge, x, y) < w.tiles(edge).len(),
        w.tiles(edge)[w.tile_index(edge, x, y)].contains(x, y),
        forall|m: int|
            0 <= m < w.tiles(edge).len() && #[trigger] w.tiles(edge)[m].contains(x, y) ==> m
                == w.tile_index(edge, x, y),
{
    let cols = w.tile_cols(edge);
    let rows = w.tile_rows(edge);
    let dx = x - w.top_left.0;
    let dy = y - w.top_left.1;
    let c = dx / edge;
    let r = dy / edge;
    lemma_fundamental_div_mod(dx, edge);
    lemma_fundamental_div_mod(dy, edge);
    assert(0 <= c && c * edge <= dx < c * edge + edge) by (nonlinear_arith)
        requires
            dx == edge * c + dx % edge,
            0 <= dx % edge < edge,
            dx >= 0,
    ;
    assert(0 <= r && r * edge <= dy < r * edge + edge) by (nonlinear_arith)
        requires
            dy == edge * r + dy % edge,
            0 <= dy % edge < edge,
            dy >= 0,
    ;
    lemma_ceil_div(w.spec_width(), edge, c);
    lemma_ceil_div(w.spec_height(), edge, r);
    let k = r * cols + c;
    assert(0 <= k < cols * rows) by (nonlinear_arith)
        requires
            k == r * cols + c,
            0 <= c < cols,
            0 <= r < rows,
    ;
    lemma_fundamental_div_mod_converse(k, cols, r, c);
    lemma_tile_shape(w, edge, c, r);
    assert((c + 1) * edge == c * edge + edge) by (nonlinear_arith);
    assert((r + 1) * edge == r * edge + edge) by (nonlinear_arith);
    assert(w.tiles(edge)[k].contains(x, y));
    assert forall|m: int|
        0 <= m < w.tiles(edge).len() && #[trigger] w.tiles(edge)[m].contains(x, y) implies m
        == k by {
        let mc = m % cols;
        let mr = m / cols;
        lemma_fundamental_div_mod(m, cols);
        assert(0 <= mr < rows) by (nonlinear_arith)
            requires
                m == cols * mr + mc,
                0 <= mc < cols,
                0 <= m < cols * rows,
        ;
        lemma_tile_shape(w, edge, mc, mr);
        assert((mc + 1) * edge == mc * edge + edge) by (nonlinear_arith);
        assert((mr + 1) * edge == mr * edge + edge) by (nonlinear_arith);
        assert(mc * edge <= dx < mc * edge + edge);
        assert(mr * edge <= dy < mr * edge + edge);
        assert(mc == c) by (nonlinear_arith)
            requires
                mc * edge <= dx < mc * edge + edge,
                c * edge <= dx < c * edge + edge,
                edge >= 1,
        ;
        assert(mr == r) by (nonlinear_arith)
            requires
                mr * edge <= dy < mr * edge + edge,
                r * edge <= dy < r * edge + edge,
                edge >= 1,
        ;
        assert(m == k) by (nonlinear_arith)
            requires
                m == cols * mr + mc,
                k == r * cols + c,
                mr == r,
                mc == c,
        ;
    }
}

/// The tile at place `i` of the grid is a window inside the window it was
/// cut from, no larger than `edge` by `edge`, and holds those pixels of the
/// window whose `tile_index` is `i`.
pub proof fn lemma_tile_at(w: Window, edge: int, i: int)
    requires
        w.wf(),
        edge >= 1,
        0 <= i < w.tiles(edge).len(),
    ensures
        w.tiles(edge)[i].wf(),
        w.top_left.0 <= w.tiles(edge)[i].top_left.0,
        w.top_left.1 <= w.tiles(edge)[i].top_left.1,
        w.tiles(edge)[i].bottom_right.0 <= w.bottom_right.0,
        w.tiles(edge)[i].bottom_right.1 <= w.bottom_right.1,
        1 <= w.tiles(edge)[i].spec_area() <= edge * edge,
        forall|x: int, y: int| #[trigger]
            w.tiles(edge)[i].contains(x, y) <==> w.contains(x, y) && w.tile_index(edge, x, y) == i,
{
    let cols = w.tile_cols(edge);
    let rows = w.tile_rows(edge);
    let col = i % cols;
    let row = i / cols;
    lemma_ceil_div(w.spec_width(), edge, 0);
    lemma_fundamental_div_mod(i, cols);
    assert(0 <= row < rows) by (nonlinear_arith)
        requires
            i == cols * row + col,
            0 <= col < cols,
            0 <= i < cols * rows,
    ;
    lemma_tile_shape(w, edge, col, row);
    let t = w.tiles(edge)[i];
    assert(t == w.tile(edge, col, row));
    assert(col * edge >= 0 && row * edge >= 0) by (nonlinear_arith)
        requires
            col >= 0,
            row >= 0,
            edge >= 1,
    ;
    assert(1 <= t.spec_width() * t.spec_height() <= edge * edge) by (nonlinear_arith)
        requires
            1 <= t.spec_width() <= edge,
            1 <= t.spec_height() <= edge,
    ;
    assert forall|x: int, y: int| #[trigger]
        t.contains(x, y) <==> w.contains(x, y) && w.tile_index(edge, x, y) == i by {
        if t.contains(x, y) {
            assert(w.contains(x, y));
            lemma_tiles_partition(w, edge, x, y);
        }
        if w.contains(x, y) && w.tile_index(edge, x, y) == i {
            lemma_tiles_partition(w, edge, x, y);
        }
    }
}

/// The area of the first `k` windows is no more than the area of all.
pub proof fn lemma_total_area_take(ws: Seq<Window>, k: int)
    requires
        0 <= k <= ws.len(),
        forall|i: int| 0 <= i < ws.len() ==> (#[trigger] ws[i]).wf(),
    ensures
        0 <= total_area(ws.take(k)) <= total_area(ws),
        k < ws.len() ==> total_area(ws.take(k + 1)) == total_area(ws.take(k)) + ws[k].spec_area(),
    decreases ws.len() - k,
{
    if k < ws.len() {
        lemma_total_area_take(ws, k + 1);
        assert(ws.take(k + 1).drop_last() =~= ws.take(k));
        assert(ws.take(k + 1).last() == ws[k]);
        assert(ws[k].wf());
        assert(ws[k].spec_width() * ws[k].spec_height() >= 1) by (nonlinear_arith)
            requires
                ws[k].spec_width() >= 1,
                ws[k].spec_height() >= 1,
        ;
        lemma_total_area_nonnegative(ws.take(k));
    } else {
        assert(ws.take(k) =~= ws);
        lemma_total_area_nonnegative(ws);
    }
}

/// Areas do not add up to less than nothing.
pub proof fn lemma_total_area_nonnegative(ws: Seq<Window>)
    requires
        forall|i: int| 0 <= i < ws.len() ==> (#[trigger] ws[i]).wf(),
    ensures
        total_area(ws) >= 0,
    decreases ws.len(),
{
    if ws.len() > 0 {
        lemma_total_area_nonnegative(ws.drop_last());
        let last = ws.last();
        assert(last.wf());
        assert(last.spec_width() * last.spec_height() >= 1) by (nonlinear_arith)
            requires
                last.spec_width() >= 1,
                last.spec_height() >= 1,
        ;
    }
}

/// The area of the first `k` tiles of the grid.
pub open spec fn area_before(w: Window, edge: int, k: int) -> int {
    let i = k % w.tile_cols(edge);
    let j = k / w.tile_cols(edge);
    w.spec_width() * min2(j * edge, w.spec_height()) + min2(i * edge, w.spec_width())
        * piece_len(w.spec_height(), edge, j)
}

proof fn lemma_area_before(w: Window, edge: int, k: int)
    requires
        w.wf(),
        edge >= 1,
        0 <= k <= w.tiles(edge).len(),
    ensures
        total_area(w.tiles(edge).take(k)) == area_before(w, edge, k),
    decreases k,
{
    let cols = w.tile_cols(edge);
    let rows = w.tile_rows(edge);
    let width = w.spec_width();
    let height = w.spec_height();
    let tiles = w.tiles(edge);
    lemma_ceil_div(width, edge, 0);
    if k == 0 {
        assert(tiles.take(0).len() == 0);
        assert(0int % cols == 0 && 0int / cols == 0) by {
            lemma_fundamental_div_mod_converse(0, cols, 0, 0);
        }
        assert(0 * edge == 0) by (nonlinear_arith);
        assert(width * 0 == 0) by (nonlinear_arith);
        assert(0 * piece_len(height, edge, 0) == 0) by (nonlinear_arith);
    } else {
        lemma_area_before(w, edge, k - 1);
        assert(tiles.take(k).drop_last() =~= tiles.take(k - 1));
        let i = (k - 1) % cols;
        let j = (k - 1) / cols;
        lemma_fundamental_div_mod(k - 1, cols);
        assert(0 <= j < rows) by (nonlinear_arith)
            requires
                k - 1 == cols * j + i,
                0 <= i < cols,
                0 <= k - 1 < cols * rows,
        ;
        lemma_tile_shape(w, edge, i, j);
        lemma_ceil_div(width, edge, i);
        lemma_ceil_div(height, edge, j);
        let tw = piece_len(width, edge, i);
        let th = piece_len(height, edge, j);
        assert(tiles.take(k).last() == w.tile(edge, i, j));
        assert(w.tile(edge, i, j).spec_area() == tw * th);
        assert(i * edge >= 0 && j * edge >= 0) by (nonlinear_arith)
            requires
                i >= 0,
                j >= 0,
                edge >= 1,
        ;
        assert((i + 1) * edge == i * edge + edge) by (nonlinear_arith);
        assert((j + 1) * edge == j * edge + edge) by (nonlinear_arith);
        let before = area_before(w, edge, k - 1);
        assert(before == width * (j * edge) + (i * edge) * th);
        if i + 1 < cols {
            assert(k == cols * j + (i + 1));
            lemma_fundamental_div_mod_converse(k, cols, j, i + 1);
            lemma_ceil_div(width, edge, i + 1);
            assert(min2((i + 1) * edge, width) == i * edge + tw);
            assert(area_before(w, edge, k) == width * (j * edge) + (i * edge + tw) * th);
            assert((i * edge + tw) * th == (i * edge) * th + tw * th) by (nonlinear_arith);
        } else {
            assert(k == cols * (j + 1) + 0) by (nonlinear_arith)
                requires
                    k - 1 == cols * j + i,
                    i + 1 == cols,
            ;
            lemma_fundamental_div_mod_converse(k, cols, j + 1, 0);
            lemma_ceil_div(width, edge, i + 1);
            assert(tw == width - i * edge);
            assert(min2((j + 1) * edge, height) == j * edge + th);
            assert(0 * edge == 0) by (nonlinear_arith);
            assert(0 * piece_len(height, edge, j + 1) == 0) by (nonlinear_arith);
            assert(area_before(w, edge, k) == width * (j * edge + th));
            assert(width * (j * edge + th) == width * (j * edge) + (i * edge) * th + tw * th)
                by (nonlinear_arith)
                requires
                    tw == width - i * edge,
            ;
        }
    }
}

/// The areas of the tiles add up to the area of the window, whatever the
/// edge: the grid covers every pixel once.
pub proof fn lemma_tiles_area(w: Window, edge: int)
    requires
        w.wf(),
        edge >= 1,
    ensures
        total_area(w.tiles(edge)) == w.spec_area(),
{
    let cols = w.tile_cols(edge);
    let rows = w.tile_rows(edge);
    let n = w.tiles(edge).len() as int;
    lemma_ceil_div(w.spec_width(), edge, 0);
    lemma_ceil_div(w.spec_height(), edge, rows);
    assert(n == cols * rows) by (nonlinear_arith)
        requires
            n == (cols * rows) as nat,
            cols >= 1,
            rows >= 0,
    ;
    lemma_area_before(w, edge, n);
    assert(w.tiles(edge).take(n) =~= w.tiles(edge));
    assert(n == cols * rows + 0) by (nonlinear_arith)
        requires
            n == cols * rows,
    ;
    lemma_fundamental_div_mod_converse(n, cols, rows, 0);
    assert(0 * edge == 0) by (nonlinear_arith);
    assert(0 * piece_len(w.spec_height(), edge, rows) == 0) by (nonlinear_arith);
}

} // verus!
