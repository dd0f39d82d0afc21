//! RGBA pixel buffer assembled from colored tiles.

use vstd::prelude::*;

use crate::iteration_buffer::{lemma_pixel_coords, lemma_pixel_index, pixel_index};
use crate::tile::Tile;

verus! {

/// Recover the pixel position and channel from a byte index.
proof fn lemma_byte_coords(d: int, c: int)
    requires
        0 <= d,
        0 <= c < 4,
    ensures
        (d * 4 + c) / 4 == d,
        (d * 4 + c) % 4 == c,
        0 <= d * 4 + c,
{
    vstd::arithmetic::div_mod::lemma_fundamental_div_mod_converse(d * 4 + c, 4, d, c);
}

/// Byte position of channel `c` of pixel `(x, y)` in an RGBA frame of
/// `width` columns.
pub open spec fn rgba_index(width: int, x: int, y: int, c: int) -> int {
    pixel_index(width, x, y) * 4 + c
}

/// An RGBA pixel buffer representing a rendered image.
#[derive(Debug, Clone)]
pub struct RenderBuffer {
    pub width: u32,
    pub height: u32,
    /// RGBA pixel data, 4 bytes per pixel, row-major order.
    pub pixels: Vec<u8>,
}

impl RenderBuffer {
    /// Four bytes for each pixel of the frame.
    pub open spec fn wf(self) -> bool {
        self.pixels@.len() == self.width * self.height * 4
    }

    /// Create a new buffer filled with black (opaque).
    pub fn new(width: u32, height: u32) -> (buf: RenderBuffer)
        requires
            width * height * 4 <= usize::MAX,
        ensures
            buf.wf(),
            buf.width == width,
            buf.height == height,
            forall|b: int|
                0 <= b < buf.pixels@.len() ==> buf.pixels@[b] == if b % 4 == 3 {
                    255u8
                } else {
                    0u8
                },
    {
        proof {
            assert((width as int) * (height as int) * 4 == (width as int) * ((height as int) * 4))
                by (nonlinear_arith);
        }
        let count: usize = (width as usize) * (height as usize);
        let size: usize = count * 4;
        let mut pixels: Vec<u8> = vec![0u8; size];
        let mut p: usize = 0;
        while p < count
            invariant
                0 <= p <= count,
                count == (width as int) * (height as int),
                size == count * 4,
                pixels@.len() == size,
                forall|b: int|
                    0 <= b < size && b / 4 < p ==> pixels@[b] == if b % 4 == 3 {
                        255u8
                    } else {
                        0u8
                    },
                forall|b: int| 0 <= b < size && b / 4 >= p ==> pixels@[b] == 0u8,
            decreases count - p,
        {
            proof {
                lemma_byte_coords(p as int, 3);
                assert((p as int) * 4 + 3 < count * 4) by (nonlinear_arith)
                    requires
                        0 <= (p as int) < count,
                ;
            }
            let ghost pre = pixels@;
            pixels[p * 4 + 3] = 255u8;
            proof {
                lemma_byte_coords(p as int, 3);
                assert forall|b: int| 0 <= b < size && b / 4 < p + 1 implies pixels@[b] == if b % 4
                    == 3 {
                    255u8
                } else {
                    0u8
                } by {
                    if b != (p as int) * 4 + 3 {
                        assert(pixels@[b] == pre[b]);
                        if b / 4 == p as int && b % 4 != 3 {
                            assert(pre[b] == 0u8);
                        }
                        if b / 4 == p as int && b % 4 == 3 {
                            vstd::arithmetic::div_mod::lemma_fundamental_div_mod(b, 4);
                            assert(b == (p as int) * 4 + 3);
                        }
                    }
                }
                assert forall|b: int| 0 <= b < size && b / 4 >= p + 1 implies pixels@[b]
                    == 0u8 by {
                    assert(b != (p as int) * 4 + 3);
                    assert(pixels@[b] == pre[b]);
                }
            }
            p = p + 1;
        }
        RenderBuffer { width, height, pixels }
    }

    /// Copy a tile's RGBA data into the tile's region of the buffer.
    pub fn blit_tile(&mut self, tile: &Tile, tile_pixels: &Vec<u8>)
        requires
            old(self).wf(),
            tile.in_frame(old(self).width as int, old(self).height as int),
            tile_pixels@.len() == tile.spec_pixel_count() * 4,
        ensures
            final(self).wf(),
            final(self).width == old(self).width,
            final(self).height == old(self).height,
            forall|x: int, y: int, c: int|
                tile.contains(x, y) && 0 <= c < 4 ==> final(self).pixels@[#[trigger] rgba_index(
                    old(self).width as int,
                    x,
                    y,
                    c,
                )] == tile_pixels@[((y - tile.y) * tile.width + (x - tile.x)) * 4 + c],
            forall|b: int|
                0 <= b < old(self).pixels@.len() && !tile.contains(
                    (b / 4) % (old(self).width as int),
                    (b / 4) / (old(self).width as int),
                ) ==> final(self).pixels@[b] == old(self).pixels@[b],
    {
        self.blit_rows(tile, tile_pixels, false);
    }

    /// Copy a tile's data into a mirror position, flipping rows vertically:
    /// row `r` of the destination comes from row `height - 1 - r` of the
    /// primary tile's data.  Used for real-axis symmetry.
    pub fn blit_tile_mirrored(&mut self, mirror_tile: &Tile, primary_pixels: &Vec<u8>)
        requires
            old(self).wf(),
            mirror_tile.in_frame(old(self).width as int, old(self).height as int),
            primary_pixels@.len() == mirror_tile.spec_pixel_count() * 4,
        ensures
            final(self).wf(),
            final(self).width == old(self).width,
            final(self).height == old(self).height,
            forall|x: int, y: int, c: int|
                mirror_tile.contains(x, y) && 0 <= c < 4 ==> final(self).pixels@[
                    #[trigger] rgba_index(old(self).width as int, x, y, c)]
                    == primary_pixels@[((mirror_tile.height - 1 - (y - mirror_tile.y))
                    * mirror_tile.width + (x - mirror_tile.x)) * 4 + c],
            forall|b: int|
                0 <= b < old(self).pixels@.len() && !mirror_tile.contains(
                    (b / 4) % (old(self).width as int),
                    (b / 4) / (old(self).width as int),
                ) ==> final(self).pixels@[b] == old(self).pixels@[b],
    {
        self.blit_rows(mirror_tile, primary_pixels, true);
    }

    /// Shared row-copy loop for the straight and the vertically flipped
    /// blit: with `flip` set, destination row `r` reads source row
    /// `height - 1 - r`.
    fn blit_rows(&mut self, tile: &Tile, tile_pixels: &Vec<u8>, flip: bool)
        requires
            old(self).wf(),
            tile.in_frame(old(self).width as int, old(self).height as int),
            tile_pixels@.len() == tile.spec_pixel_count() * 4,
        ensures
            final(self).wf(),
            final(self).width == old(self).width,
            final(self).height == old(self).height,
            forall|x: int, y: int, c: int|
                tile.contains(x, y) && 0 <= c < 4 ==> final(self).pixels@[#[trigger] rgba_index(
                    old(self).width as int,
                    x,
                    y,
                    c,
                )] == tile_pixels@[(src_row(*tile, y, flip) * tile.width + (x - tile.x)) * 4 + c],
            forall|b: int|
                0 <= b < old(self).pixels@.len() && !tile.contains(
                    (b / 4) % (old(self).width as int),
                    (b / 4) / (old(self).width as int),
                ) ==> final(self).pixels@[b] == old(self).pixels@[b],
    {
        let n = self.pixels.len();
        let m = tile_pixels.len();
        let w = self.width;
        let tw = tile.width;
        let ghost wi = w as int;
        let mut py: u32 = 0;
        while py < tile.height
            invariant
                self.wf(),
                self.width == old(self).width,
                self.height == old(self).height,
                n == self.pixels@.len(),
                old(self).pixels@.len() == n,
                m == tile_pixels@.len(),
                w == self.width,
                wi == w as int,
                tw == tile.width,
                tile.in_frame(self.width as int, self.height as int),
                tile_pixels@.len() == tile.spec_pixel_count() * 4,
                0 <= py <= tile.height,
                forall|x: int, y: int, c: int|
                    tile.contains(x, y) && 0 <= c < 4 && y < tile.y + py ==> self.pixels@[
                        #[trigger] rgba_index(wi, x, y, c)] == tile_pixels@[(src_row(*tile, y, flip)
                        * tile.width + (x - tile.x)) * 4 + c],
                forall|b: int|
                    0 <= b < n && !(tile.contains((b / 4) % wi, (b / 4) / wi) && (b / 4) / wi
                        < tile.y + py) ==> self.pixels@[b] == old(self).pixels@[b],
            decreases tile.height - py,
        {
            let buf_y = tile.y + py;
            let src_py = if flip {
                tile.height - 1 - py
            } else {
                py
            };
            let mut px: u32 = 0;
            while px < tw
                invariant
                    self.wf(),
                    self.width == old(self).width,
                    self.height == old(self).height,
                    n == self.pixels@.len(),
                    old(self).pixels@.len() == n,
                    m == tile_pixels@.len(),
                    w == self.width,
                    wi == w as int,
                    tw == tile.width,
                    tile.in_frame(self.width as int, self.height as int),
                    tile_pixels@.len() == tile.spec_pixel_count() * 4,
                    0 <= py < tile.height,
                    buf_y == tile.y + py,
                    src_py == if flip {
                        tile.height - 1 - py
                    } else {
                        py as int
                    },
                    0 <= px <= tw,
                    forall|x: int, y: int, c: int|
                        tile.contains(x, y) && 0 <= c < 4 && (y < tile.y + py || (y == tile.y + py
                            && x < tile.x + px)) ==> self.pixels@[#[trigger] rgba_index(
                            wi,
                            x,
                            y,
                            c,
                        )] == tile_pixels@[(src_row(*tile, y, flip) * tile.width + (x - tile.x)) * 4
                            + c],
                    forall|b: int|
                        0 <= b < n && !(tile.contains((b / 4) % wi, (b / 4) / wi) && ((b / 4) / wi
                            < tile.y + py || ((b / 4) / wi == tile.y + py && (b / 4) % wi < tile.x
                            + px))) ==> self.pixels@[b] == old(self).pixels@[b],
                decreases tw - px,
            {
                let buf_x = tile.x + px;
                proof {
                    lemma_pixel_index(wi, buf_x as int, buf_y as int);
                    assert((buf_y as int) * wi + buf_x < (self.height as int) * wi)
                        by (nonlinear_arith)
                        requires
                            0 <= buf_x < wi,
                            0 <= buf_y < self.height as int,
                    ;
                    assert((self.height as int) * wi * 4 == wi * (self.height as int) * 4)
                        by (nonlinear_arith);
                    assert(((buf_y as int) * wi + buf_x) * 4 + 3 < (self.height as int) * wi * 4)
                        by (nonlinear_arith)
                        requires
                            (buf_y as int) * wi + buf_x < (self.height as int) * wi,
                            0 <= (buf_y as int) * wi + buf_x,
                    ;
                    lemma_pixel_index(tw as int, px as int, src_py as int);
                    assert((src_py as int) * (tw as int) + px < (tile.height as int) * (tw as int))
                        by (nonlinear_arith)
                        requires
                            0 <= px < tw as int,
                            0 <= src_py < tile.height as int,
                    ;
                    assert((tile.height as int) * (tw as int) * 4 == (tw as int) * (
                    tile.height as int) * 4) by (nonlinear_arith);
                    assert(((src_py as int) * (tw as int) + px) * 4 + 3 < (tile.height as int) * (
                    tw as int) * 4) by (nonlinear_arith)
                        requires
                            (src_py as int) * (tw as int) + px < (tile.height as int) * (tw as int),
                            0 <= (src_py as int) * (tw as int) + px,
                    ;
                }
                let dst: usize = ((buf_y as usize) * (w as usize) + (buf_x as usize)) * 4;
                let src: usize = ((src_py as usize) * (tw as usize) + (px as usize)) * 4;
                let ghost pre = self.pixels@;
                let ghost d = ((buf_y as int) * wi + buf_x);
                self.pixels[dst] = tile_pixels[src];
                self.pixels[dst + 1] = tile_pixels[src + 1];
                self.pixels[dst + 2] = tile_pixels[src + 2];
                self.pixels[dst + 3] = tile_pixels[src + 3];
                proof {
                    assert forall|b: int| 0 <= b < n && !(d * 4 <= b < d * 4 + 4) implies
                        self.pixels@[b] == pre[b] by {}
                    assert forall|x: int, y: int, c: int|
                        tile.contains(x, y) && 0 <= c < 4 && (y < tile.y + py || (y == tile.y + py
                            && x < tile.x + px + 1)) implies self.pixels@[#[trigger] rgba_index(
                            wi,
                            x,
                            y,
                            c,
                        )] == tile_pixels@[(src_row(*tile, y, flip) * tile.width + (x - tile.x)) * 4
                            + c] by {
                        lemma_pixel_index(wi, x, y);
                        let pp = pixel_index(wi, x, y);
                        lemma_byte_coords(pp, c);
                        if x == buf_x as int && y == buf_y as int {
                            assert(pp == d);
                            assert(self.pixels@[d * 4 + c] == tile_pixels@[src as int + c]);
                            assert((src_row(*tile, y, flip) * tile.width + (x - tile.x)) * 4 + c
                                == src as int + c);
                        } else {
                            assert(pp != d);
                            assert(!(d * 4 <= pp * 4 + c < d * 4 + 4)) by (nonlinear_arith)
                                requires
                                    pp != d,
                                    0 <= c < 4,
                            ;
                            let hh = self.height as int;
                            assert(y * wi + x < hh * wi) by (nonlinear_arith)
                                requires
                                    0 <= x < wi,
                                    0 <= y < hh,
                            ;
                            assert((hh * wi) * 4 == wi * hh * 4) by (nonlinear_arith);
                            assert(pp * 4 + c < (hh * wi) * 4) by (nonlinear_arith)
                                requires
                                    0 <= pp < hh * wi,
                                    0 <= c < 4,
                            ;
                            assert(self.pixels@[pp * 4 + c] == pre[pp * 4 + c]);
                        }
                    }
                    assert forall|b: int|
                        0 <= b < n && !(tile.contains((b / 4) % wi, (b / 4) / wi) && ((b / 4) / wi
                            < tile.y + py || ((b / 4) / wi == tile.y + py && (b / 4) % wi < tile.x
                            + px + 1))) implies self.pixels@[b] == old(self).pixels@[b] by {
                        vstd::arithmetic::div_mod::lemma_fundamental_div_mod(b, 4);
                        vstd::arithmetic::div_mod::lemma_mod_bound(b, 4);
                        assert(b / 4 < wi * (self.height as int)) by (nonlinear_arith)
                            requires
                                0 <= b,
                                4 * (b / 4) <= b,
                                b < wi * (self.height as int) * 4,
                        ;
                        lemma_pixel_coords(wi, self.height as int, b / 4);
                        assert(!(d * 4 <= b < d * 4 + 4)) by {
                            if d * 4 <= b < d * 4 + 4 {
                                lemma_byte_coords(d, b - d * 4);
                                assert(b / 4 == d);
                            }
                        }
                        assert(self.pixels@[b] == pre[b]);
                    }
                }
                px = px + 1;
            }
            py = py + 1;
        }
    }
}

/// The tile-local source row that fills destination row `y` of the tile:
/// the same row for a straight blit, the vertically flipped row for a
/// mirrored one.
pub open spec fn src_row(tile: Tile, y: int, flip: bool) -> int {
    if flip {
        tile.height - 1 - (y - tile.y)
    } else {
        y - tile.y
    }
}

} // verus!
