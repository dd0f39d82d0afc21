//! Per-pixel iteration data for a full frame, with tile blits and the
//! pan-reuse pixel shift.

use vstd::prelude::*;

use crate::iteration::IterationResult;
use crate::tile::Tile;

verus! {

/// Row-major index of pixel `(x, y)` in a frame of `width` columns.
pub open spec fn pixel_index(width: int, x: int, y: int) -> int {
    y * width + x
}

/// Recover column and row from a row-major index.
pub proof fn lemma_pixel_index(width: int, x: int, y: int)
    requires
        0 <= x < width,
        0 <= y,
    ensures
        pixel_index(width, x, y) / width == y,
        pixel_index(width, x, y) % width == x,
        0 <= pixel_index(width, x, y),
{
    assert(0 <= y * width + x) by (nonlinear_arith)
        requires
            0 <= x,
            0 <= y,
            x < width,
    ;
    vstd::arithmetic::div_mod::lemma_fundamental_div_mod_converse(y * width + x, width, y, x);
}

/// A row-major index below `width * height` decomposes into an in-frame
/// column and row.
pub proof fn lemma_pixel_coords(width: int, height: int, i: int)
    requires
        0 < width,
        0 <= i < width * height,
    ensures
        0 <= i % width < width,
        0 <= i / width < height,
        i == pixel_index(width, i % width, i / width),
{
    vstd::arithmetic::div_mod::lemma_fundamental_div_mod(i, width);
    vstd::arithmetic::div_mod::lemma_mod_bound(i, width);
    assert(0 <= i / width < height) by (nonlinear_arith)
        requires
            0 < width,
            0 <= i < width * height,
            i == width * (i / width) + i % width,
            0 <= i % width < width,
    ;
    assert((i / width) * width + i % width == i) by (nonlinear_arith)
        requires
            i == width * (i / width) + i % width,
    ;
}

/// Stores per-pixel iteration results for a full frame, row-major.
///
/// This is the raw output of the renderer before coloring.  Keeping
/// iteration data separate from colored pixels lets a palette change be
/// applied without recomputing any iterations.
#[derive(Debug, Clone)]
pub struct IterationBuffer {
    pub width: u32,
    pub height: u32,
    pub max_iterations: u32,
    pub data: Vec<IterationResult>,
}

impl IterationBuffer {
    /// The pixel array covers the frame exactly.
    pub open spec fn wf(self) -> bool {
        self.data@.len() == self.width * self.height
    }

    /// Create a buffer of the given dimensions, fully Interior.
    pub fn new(width: u32, height: u32, max_iterations: u32) -> (buf: IterationBuffer)
        requires
            width * height <= usize::MAX,
        ensures
            buf.wf(),
            buf.width == width,
            buf.height == height,
            buf.max_iterations == max_iterations,
            forall|i: int|
                0 <= i < buf.data@.len() ==> buf.data@[i] == IterationResult::Interior,
    {
        let size: usize = (width as usize) * (height as usize);
        IterationBuffer { width, height, max_iterations, data: vec![IterationResult::Interior; size] }
    }

    /// Copy tile iteration data into the tile's region of the buffer.
    ///
    /// Pixels covered by the tile take the tile-local values; every other
    /// pixel is untouched.
    pub fn blit_tile(&mut self, tile: &Tile, tile_data: &Vec<IterationResult>)
        requires
            old(self).wf(),
            tile.in_frame(old(self).width as int, old(self).height as int),
            tile_data@.len() == tile.spec_pixel_count(),
        ensures
            final(self).wf(),
            final(self).width == old(self).width,
            final(self).height == old(self).height,
            final(self).max_iterations == old(self).max_iterations,
            forall|x: int, y: int|
                #[trigger] tile.contains(x, y) ==> final(self).data@[pixel_index(
                    old(self).width as int,
                    x,
                    y,
                )] == tile_data@[(y - tile.y) * tile.width + (x - tile.x)],
            forall|i: int|
                0 <= i < old(self).data@.len() && !tile.contains(
                    i % (old(self).width as int),
                    i / (old(self).width as int),
                ) ==> final(self).data@[i] == old(self).data@[i],
    {
        let n = self.data.len();
        let m = tile_data.len();
        let w = self.width;
        let tw = tile.width;
        let mut py: u32 = 0;
        while py < tile.height
            invariant
                self.wf(),
                self.width == old(self).width,
                self.height == old(self).height,
                self.max_iterations == old(self).max_iterations,
                n == self.data@.len(),
                old(self).data@.len() == n,
                m == tile_data@.len(),
                w == self.width,
                tw == tile.width,
                tile.in_frame(self.width as int, self.height as int),
                tile_data@.len() == tile.spec_pixel_count(),
                0 <= py <= tile.height,
                forall|x: int, y: int|
                    #[trigger] tile.contains(x, y) && y < tile.y + py ==> self.data@[pixel_index(
                        old(self).width as int,
                        x,
                        y,
                    )] == tile_data@[(y - tile.y) * tile.width + (x - tile.x)],
                forall|i: int|
                    0 <= i < old(self).data@.len() && !(tile.contains(
                        i % (old(self).width as int),
                        i / (old(self).width as int),
                    ) && i / (old(self).width as int) < tile.y + py) ==> self.data@[i] == old(
                        self,
                    ).data@[i],
            decreases tile.height - py,
        {
            let buf_y = tile.y + py;
            let mut px: u32 = 0;
            while px < tw
                invariant
                    self.wf(),
                    self.width == old(self).width,
                    self.height == old(self).height,
                    self.max_iterations == old(self).max_iterations,
                    n == self.data@.len(),
                    old(self).data@.len() == n,
                    m == tile_data@.len(),
                    w == self.width,
                    tw == tile.width,
                    tile.in_frame(self.width as int, self.height as int),
                    tile_data@.len() == tile.spec_pixel_count(),
                    0 <= py < tile.height,
                    buf_y == tile.y + py,
                    0 <= px <= tw,
                    forall|x: int, y: int|
                        #[trigger] tile.contains(x, y) && (y < tile.y + py || (y == tile.y + py && x
                            < tile.x + px)) ==> self.data@[pixel_index(old(self).width as int, x, y)]
                            == tile_data@[(y - tile.y) * tile.width + (x - tile.x)],
                    forall|i: int|
                        0 <= i < old(self).data@.len() && !(tile.contains(
                            i % (old(self).width as int),
                            i / (old(self).width as int),
                        ) && (i / (old(self).width as int) < tile.y + py || (i / (old(
                            self,
                        ).width as int) == tile.y + py && i % (old(self).width as int) < tile.x
                            + px))) ==> self.data@[i] == old(self).data@[i],
                decreases tw - px,
            {
                let buf_x = tile.x + px;
                proof {
                    lemma_pixel_index(w as int, buf_x as int, buf_y as int);
                    assert((buf_y as int) * (w as int) + buf_x < (self.height as int) * (
                    w as int)) by (nonlinear_arith)
                        requires
                            0 <= buf_x < w as int,
                            0 <= buf_y < self.height as int,
                    ;
                    assert((self.height as int) * (w as int) == (w as int) * (
                    self.height as int)) by (nonlinear_arith);
                    lemma_pixel_index(tw as int, px as int, py as int);
                    assert((py as int) * (tw as int) + px < (tile.height as int) * (
                    tw as int)) by (nonlinear_arith)
                        requires
                            0 <= px < tw as int,
                            0 <= py < tile.height as int,
                    ;
                    assert((tile.height as int) * (tw as int) == (tw as int) * (
                    tile.height as int)) by (nonlinear_arith);
                }
                let dst: usize = (buf_y as usize) * (w as usize) + (buf_x as usize);
                let src: usize = (py as usize) * (tw as usize) + (px as usize);
                let ghost pre = self.data@;
                self.data[dst] = tile_data[src];
                proof {
                    let wi = w as int;
                    assert forall|x: int, y: int|
                        #[trigger] tile.contains(x, y) && (y < tile.y + py || (y == tile.y + py && x
                            < tile.x + px + 1)) implies self.data@[pixel_index(wi, x, y)]
                        == tile_data@[(y - tile.y) * tile.width + (x - tile.x)] by {
                        lemma_pixel_index(wi, x, y);
                        lemma_pixel_index(wi, buf_x as int, buf_y as int);
                        if pixel_index(wi, x, y) == dst as int {
                            assert(x == buf_x as int && y == buf_y as int);
                            assert(src as int == (y - tile.y) * tile.width + (x - tile.x));
                        } else {
                            let hh = self.height as int;
                            assert(y * wi + x < hh * wi) by (nonlinear_arith)
                                requires
                                    0 <= x < wi,
                                    0 <= y < hh,
                            ;
                            assert(hh * wi == wi * hh) by (nonlinear_arith);
                            assert(self.data@[pixel_index(wi, x, y)] == pre[pixel_index(wi, x, y)]);
                        }
                    }
                    assert forall|i: int|
                        0 <= i < old(self).data@.len() && !(tile.contains(
                            i % wi,
                            i / wi,
                        ) && (i / wi < tile.y + py || (i / wi == tile.y + py && i % wi < tile.x + px
                            + 1))) implies self.data@[i] == old(self).data@[i] by {
                        lemma_pixel_index(wi, buf_x as int, buf_y as int);
                        assert(i != dst as int);
                        assert(self.data@[i] == pre[i]);
                    }
                }
                px = px + 1;
            }
            py = py + 1;
        }
    }

    /// Copy tile iteration data with a vertical flip, writing row `r` of
    /// the destination from row `height - 1 - r` of the source data.  Used
    /// to reconstruct the mirror tile of a real-axis symmetric pair.
    pub fn blit_tile_mirrored(&mut self, tile: &Tile, tile_data: &Vec<IterationResult>)
        requires
            old(self).wf(),
            tile.in_frame(old(self).width as int, old(self).height as int),
            tile_data@.len() == tile.spec_pixel_count(),
        ensures
            final(self).wf(),
            final(self).width == old(self).width,
            final(self).height == old(self).height,
            final(self).max_iterations == old(self).max_iterations,
            forall|x: int, y: int|
                #[trigger] tile.contains(x, y) ==> final(self).data@[pixel_index(
                    old(self).width as int,
                    x,
                    y,
                )] == tile_data@[(tile.height - 1 - (y - tile.y)) * tile.width + (x - tile.x)],
            forall|i: int|
                0 <= i < old(self).data@.len() && !tile.contains(
                    i % (old(self).width as int),
                    i / (old(self).width as int),
                ) ==> final(self).data@[i] == old(self).data@[i],
    {
        let n = self.data.len();
        let m = tile_data.len();
        let w = self.width;
        let tw = tile.width;
        let mut py: u32 = 0;
        while py < tile.height
            invariant
                self.wf(),
                self.width == old(self).width,
                self.height == old(self).height,
                self.max_iterations == old(self).max_iterations,
                n == self.data@.len(),
                old(self).data@.len() == n,
                m == tile_data@.len(),
                w == self.width,
                tw == tile.width,
                tile.in_frame(self.width as int, self.height as int),
                tile_data@.len() == tile.spec_pixel_count(),
                0 <= py <= tile.height,
                forall|x: int, y: int|
                    #[trigger] tile.contains(x, y) && y < tile.y + py ==> self.data@[pixel_index(
                        old(self).width as int,
                        x,
                        y,
                    )] == tile_data@[(tile.height - 1 - (y - tile.y)) * tile.width + (x - tile.x)],
                forall|i: int|
                    0 <= i < old(self).data@.len() && !(tile.contains(
                        i % (old(self).width as int),
                        i / (old(self).width as int),
                    ) && i / (old(self).width as int) < tile.y + py) ==> self.data@[i] == old(
                        self,
                    ).data@[i],
            decreases tile.height - py,
        {
            let buf_y = tile.y + py;
            let src_py = tile.height - 1 - py;
            let mut px: u32 = 0;
            while px < tw
                invariant
                    self.wf(),
                    self.width == old(self).width,
                    self.height == old(self).height,
                    self.max_iterations == old(self).max_iterations,
                    n == self.data@.len(),
                    old(self).data@.len() == n,
                    m == tile_data@.len(),
                    w == self.width,
                    tw == tile.width,
                    tile.in_frame(self.width as int, self.height as int),
                    tile_data@.len() == tile.spec_pixel_count(),
                    0 <= py < tile.height,
                    buf_y == tile.y + py,
                    src_py == tile.height - 1 - py,
                    0 <= px <= tw,
                    forall|x: int, y: int|
                        #[trigger] tile.contains(x, y) && (y < tile.y + py || (y == tile.y + py && x
                            < tile.x + px)) ==> self.data@[pixel_index(old(self).width as int, x, y)]
                            == tile_data@[(tile.height - 1 - (y - tile.y)) * tile.width + (x
                            - tile.x)],
                    forall|i: int|
                        0 <= i < old(self).data@.len() && !(tile.contains(
                            i % (old(self).width as int),
                            i / (old(self).width as int),
                        ) && (i / (old(self).width as int) < tile.y + py || (i / (old(
                            self,
                        ).width as int) == tile.y + py && i % (old(self).width as int) < tile.x
                            + px))) ==> self.data@[i] == old(self).data@[i],
                decreases tw - px,
            {
                let buf_x = tile.x + px;
                proof {
                    lemma_pixel_index(w as int, buf_x as int, buf_y as int);
                    assert((buf_y as int) * (w as int) + buf_x < (self.height as int) * (
                    w as int)) by (nonlinear_arith)
                        requires
                            0 <= buf_x < w as int,
                            0 <= buf_y < self.height as int,
                    ;
                    assert((self.height as int) * (w as int) == (w as int) * (
                    self.height as int)) by (nonlinear_arith);
                    lemma_pixel_index(tw as int, px as int, src_py as int);
                    assert((src_py as int) * (tw as int) + px < (tile.height as int) * (
                    tw as int)) by (nonlinear_arith)
                        requires
                            0 <= px < tw as int,
                            0 <= src_py < tile.height as int,
                    ;
                    assert((tile.height as int) * (tw as int) == (tw as int) * (
                    tile.height as int)) by (nonlinear_arith);
                }
                let dst: usize = (buf_y as usize) * (w as usize) + (buf_x as usize);
                let src: usize = (src_py as usize) * (tw as usize) + (px as usize);
                let ghost pre = self.data@;
                self.data[dst] = tile_data[src];
                proof {
                    let wi = w as int;
                    assert forall|x: int, y: int|
                        #[trigger] tile.contains(x, y) && (y < tile.y + py || (y == tile.y + py && x
                            < tile.x + px + 1)) implies self.data@[pixel_index(wi, x, y)]
                        == tile_data@[(tile.height - 1 - (y - tile.y)) * tile.width + (x - tile.x)] by {
                        lemma_pixel_index(wi, x, y);
                        lemma_pixel_index(wi, buf_x as int, buf_y as int);
                        if pixel_index(wi, x, y) == dst as int {
                            assert(x == buf_x as int && y == buf_y as int);
                            assert(src as int == (tile.height - 1 - (y - tile.y)) * tile.width + (x
                                - tile.x));
                        } else {
                            let hh = self.height as int;
                            assert(y * wi + x < hh * wi) by (nonlinear_arith)
                                requires
                                    0 <= x < wi,
                                    0 <= y < hh,
                            ;
                            assert(hh * wi == wi * hh) by (nonlinear_arith);
                            assert(self.data@[pixel_index(wi, x, y)] == pre[pixel_index(wi, x, y)]);
                        }
                    }
                    assert forall|i: int|
                        0 <= i < old(self).data@.len() && !(tile.contains(
                            i % wi,
                            i / wi,
                        ) && (i / wi < tile.y + py || (i / wi == tile.y + py && i % wi < tile.x + px
                            + 1))) implies self.data@[i] == old(self).data@[i] by {
                        lemma_pixel_index(wi, buf_x as int, buf_y as int);
                        assert(i != dst as int);
                        assert(self.data@[i] == pre[i]);
                    }
                }
                px = px + 1;
            }
            py = py + 1;
        }
    }

    /// Shift the buffer by a pixel offset, preserving overlapping data.
    ///
    /// `dx > 0` means content moves right (left edge exposed).
    /// `dy > 0` means content moves down (top edge exposed).
    /// Exposed regions are filled with `Interior`.
    pub fn shift(&mut self, dx: i32, dy: i32)
        requires
            old(self).wf(),
        ensures
            final(self).wf(),
            final(self).width == old(self).width,
            final(self).height == old(self).height,
            final(self).max_iterations == old(self).max_iterations,
            final(self).data@ == shifted(
                old(self).data@,
                old(self).width as int,
                old(self).height as int,
                dx as int,
                dy as int,
            ),
    {
        let w = self.width;
        let h = self.height;
        let n = self.data.len();
        let ghost wi = w as int;
        let ghost hi = h as int;
        let ghost dxi = dx as int;
        let ghost dyi = dy as int;
        let ghost target = shifted(old(self).data@, wi, hi, dxi, dyi);
        let mut new_data: Vec<IterationResult> = vec![IterationResult::Interior; n];
        let mut y: u32 = 0;
        while y < h
            invariant
                self.wf(),
                self == old(self),
                w == self.width,
                h == self.height,
                n == self.data@.len(),
                wi == w as int,
                hi == h as int,
                dxi == dx as int,
                dyi == dy as int,
                target == shifted(old(self).data@, wi, hi, dxi, dyi),
                new_data@.len() == n,
                0 <= y <= h,
                forall|i: int|
                    0 <= i < n && i / wi < y ==> new_data@[i] == target[i],
                forall|i: int|
                    0 <= i < n && i / wi >= y ==> new_data@[i] == IterationResult::Interior,
            decreases h - y,
        {
            let mut x: u32 = 0;
            while x < w
                invariant
                    self.wf(),
                    self == old(self),
                    w == self.width,
                    h == self.height,
                    n == self.data@.len(),
                    wi == w as int,
                    hi == h as int,
                    dxi == dx as int,
                    dyi == dy as int,
                    target == shifted(old(self).data@, wi, hi, dxi, dyi),
                    new_data@.len() == n,
                    0 <= y < h,
                    0 <= x <= w,
                    forall|i: int|
                        0 <= i < n && (i / wi < y || (i / wi == y && i % wi < x)) ==> new_data@[i]
                            == target[i],
                    forall|i: int|
                        0 <= i < n && (i / wi > y || (i / wi == y && i % wi >= x)) ==> new_data@[i]
                            == IterationResult::Interior,
                decreases w - x,
            {
                proof {
                    lemma_pixel_index(wi, x as int, y as int);
                    assert((y as int) * wi + x < hi * wi) by (nonlinear_arith)
                        requires
                            0 <= x < wi,
                            0 <= y < hi,
                    ;
                    assert(hi * wi == wi * hi) by (nonlinear_arith);
                }
                let dst: usize = (y as usize) * (w as usize) + (x as usize);
                let sx: i64 = (x as i64) - (dx as i64);
                let sy: i64 = (y as i64) - (dy as i64);
                let ghost pre = new_data@;
                if 0 <= sx && sx < w as i64 && 0 <= sy && sy < h as i64 {
                    proof {
                        lemma_pixel_index(wi, sx as int, sy as int);
                        assert((sy as int) * wi + sx < hi * wi) by (nonlinear_arith)
                            requires
                                0 <= sx < wi,
                                0 <= sy < hi,
                        ;
                    }
                    let src: usize = (sy as usize) * (w as usize) + (sx as usize);
                    new_data[dst] = self.data[src];
                    proof {
                        assert(target[dst as int] == old(self).data@[pixel_index(
                            wi,
                            (x as int) - dxi,
                            (y as int) - dyi,
                        )]);
                        assert(src as int == pixel_index(wi, (x as int) - dxi, (y as int) - dyi));
                        assert(new_data@[dst as int] == target[dst as int]);
                    }
                } else {
                    proof {
                        assert(target[dst as int] == IterationResult::Interior);
                        assert(new_data@[dst as int] == IterationResult::Interior);
                    }
                }
                proof {
                    assert forall|i: int|
                        0 <= i < n && (i / wi < y || (i / wi == y && i % wi < x + 1)) implies
                        new_data@[i] == target[i] by {
                        lemma_pixel_coords(wi, hi, i);
                        if i != dst as int {
                            assert(new_data@[i] == pre[i]);
                        }
                    }
                    assert forall|i: int|
                        0 <= i < n && (i / wi > y || (i / wi == y && i % wi >= x + 1)) implies
                        new_data@[i] == IterationResult::Interior by {
                        lemma_pixel_coords(wi, hi, i);
                        if i != dst as int {
                            assert(new_data@[i] == pre[i]);
                        }
                    }
                }
                x = x + 1;
            }
            y = y + 1;
        }
        proof {
            assert forall|i: int| 0 <= i < n implies new_data@[i] == target[i] by {
                lemma_pixel_coords(wi, hi, i);
            }
            assert(new_data@ =~= target);
        }
        self.data = new_data;
    }
}

/// The frame contents after a pan by `(dx, dy)`: the pixel at `(x, y)`
/// shows what was at `(x - dx, y - dy)`, and pixels whose source falls
/// outside the frame become Interior.
pub open spec fn shifted(
    data: Seq<IterationResult>,
    width: int,
    height: int,
    dx: int,
    dy: int,
) -> Seq<IterationResult> {
    Seq::new(
        data.len() as nat,
        |i: int|
            {
                let x = i % width;
                let y = i / width;
                if 0 <= x - dx < width && 0 <= y - dy < height {
                    data[pixel_index(width, x - dx, y - dy)]
                } else {
                    IterationResult::Interior
                }
            },
    )
}

/// Shifting by `(dx, dy)` and then by `(-dx, -dy)` reproduces the original
/// frame everywhere except the band that left the frame and came back
/// exposed, which is Interior.
pub proof fn lemma_shift_round_trip(
    data: Seq<IterationResult>,
    width: int,
    height: int,
    dx: int,
    dy: int,
)
    requires
        0 < width,
        0 < height,
        data.len() == width * height,
    ensures
        forall|i: int|
            0 <= i < data.len() ==> #[trigger] shifted(
                shifted(data, width, height, dx, dy),
                width,
                height,
                -dx,
                -dy,
            )[i] == if 0 <= (i % width) + dx < width && 0 <= (i / width) + dy < height {
                data[i]
            } else {
                IterationResult::Interior
            },
{
    let s1 = shifted(data, width, height, dx, dy);
    let s2 = shifted(s1, width, height, -dx, -dy);
    assert forall|i: int| 0 <= i < data.len() implies #[trigger] s2[i] == if 0 <= (i % width) + dx
        < width && 0 <= (i / width) + dy < height {
        data[i]
    } else {
        IterationResult::Interior
    } by {
        lemma_pixel_coords(width, height, i);
        let x = i % width;
        let y = i / width;
        if 0 <= x + dx < width && 0 <= y + dy < height {
            let j = pixel_index(width, x + dx, y + dy);
            lemma_pixel_index(width, x + dx, y + dy);
            assert(j < width * height) by (nonlinear_arith)
                requires
                    j == (y + dy) * width + (x + dx),
                    0 <= x + dx < width,
                    0 <= y + dy < height,
            ;
            assert(s2[i] == s1[j]);
            assert(s1[j] == data[pixel_index(width, x, y)]);
        }
    }
}

} // verus!
