//! Tile-grid partitioning of a frame and real-axis symmetry classification.

use vstd::prelude::*;

verus! {

/// Tile side in pixels.  A full tile of iteration results is small enough
/// to stay cache-resident while it is filled.
pub const TILE_SIZE: u32 = 64;

/// A rectangular tile within the frame, in pixel coordinates.
#[derive(Debug, Clone, Copy, PartialEq, Eq, Structural)]
pub struct Tile {
    /// Pixel x of the top-left corner.
    pub x: u32,
    /// Pixel y of the top-left corner.
    pub y: u32,
    /// Tile width in pixels (may be smaller at the right edge).
    pub width: u32,
    /// Tile height in pixels (may be smaller at the bottom edge).
    pub height: u32,
}

impl Tile {
    /// Number of pixels covered by this tile.
    pub open spec fn spec_pixel_count(self) -> int {
        self.width * self.height
    }

    /// Does this tile cover the pixel `(px, py)`?
    pub open spec fn contains(self, px: int, py: int) -> bool {
        &&& self.x <= px < self.x + self.width
        &&& self.y <= py < self.y + self.height
    }

    /// The tile lies inside a `width` by `height` frame and is not empty.
    pub open spec fn in_frame(self, width: int, height: int) -> bool {
        &&& 0 < self.width
        &&& 0 < self.height
        &&& self.x + self.width <= width
        &&& self.y + self.height <= height
    }

    /// Number of pixels in this tile.
    pub fn pixel_count(&self) -> (n: usize)
        requires
            self.width * self.height <= usize::MAX,
        ensures
            n == self.spec_pixel_count(),
    {
        self.width as usize * self.height as usize
    }
}

/// Clamp a remaining extent to one tile side.
pub open spec fn tile_side(rest: int) -> int {
    vstd::math::min(TILE_SIZE as int, rest)
}

/// Number of tiles needed to cover `extent` pixels.
pub open spec fn grid_dim_count(extent: int) -> int {
    (extent + (TILE_SIZE as int) - 1) / (TILE_SIZE as int)
}

/// The tile in row `r`, column `c` of the grid over a `width` by `height`
/// frame: full `TILE_SIZE` sides except at the right and bottom edges.
pub open spec fn is_grid_tile(t: Tile, width: int, height: int, r: int, c: int) -> bool {
    &&& t.x == c * (TILE_SIZE as int)
    &&& t.y == r * (TILE_SIZE as int)
    &&& t.width == tile_side(width - t.x)
    &&& t.height == tile_side(height - t.y)
}

/// `tiles` is exactly the row-major tile grid of a `width` by `height` frame.
pub open spec fn grid_seq(width: int, height: int, tiles: Seq<Tile>) -> bool {
    let cols = grid_dim_count(width);
    &&& tiles.len() == grid_dim_count(height) * cols
    &&& forall|i: int|
        0 <= i < tiles.len() ==> is_grid_tile(#[trigger] tiles[i], width, height, i / cols, i % cols)
}

/// How a tile relates to the real-axis symmetry optimization.
#[derive(Debug, Clone, Copy, PartialEq, Eq, Structural)]
pub enum TileKind {
    /// No symmetry applies — render normally.
    Normal,
    /// This tile is above the real axis and has a mirror below.
    Primary { mirror_index: usize },
    /// This tile mirrors a primary tile — copy its data with rows flipped.
    Mirror { primary_index: usize },
}

/// A tile paired with its symmetry classification.
#[derive(Debug, Clone, Copy, PartialEq, Eq, Structural)]
pub struct ClassifiedTile {
    pub tile: Tile,
    pub kind: TileKind,
}

/// The tile lies entirely in the upper half of a frame of `height` rows.
pub open spec fn upper_half(t: Tile, height: int) -> bool {
    2 * (t.y + t.height) <= height
}

/// The tile lies entirely in the lower half of a frame of `height` rows.
pub open spec fn lower_half(t: Tile, height: int) -> bool {
    2 * t.y >= height
}

/// The tile crosses the horizontal centre line of the frame.
pub open spec fn straddles_axis(t: Tile, height: int) -> bool {
    2 * t.y < height && 2 * (t.y + t.height) > height
}

/// `m` is the reflection of `p` across the horizontal centre line of a
/// frame of `height` rows: same column band and size, mirrored row band.
pub open spec fn mirror_geometry(p: Tile, m: Tile, height: int) -> bool {
    &&& m.x == p.x
    &&& m.width == p.width
    &&& m.height == p.height
    &&& m.y == height - p.y - p.height
}

/// The kind marks a tile whose data is computed and mirrored below the axis.
pub open spec fn is_primary_kind(k: TileKind) -> bool {
    match k {
        TileKind::Primary { .. } => true,
        _ => false,
    }
}

/// The kind marks a tile whose data is copied from a primary tile.
pub open spec fn is_mirror_kind(k: TileKind) -> bool {
    match k {
        TileKind::Mirror { .. } => true,
        _ => false,
    }
}

/// The primary tile index a Mirror kind points at (meaningless for other
/// kinds).
pub open spec fn primary_index_of(k: TileKind) -> int {
    match k {
        TileKind::Mirror { primary_index } => primary_index as int,
        _ => -1,
    }
}

/// No pixel is covered by two different tiles of the sequence.
pub open spec fn tiles_disjoint(tiles: Seq<Tile>) -> bool {
    forall|i: int, j: int, x: int, y: int|
        #![trigger tiles[i].contains(x, y), tiles[j].contains(x, y)]
        0 <= i < tiles.len() && 0 <= j < tiles.len() && i != j && tiles[i].contains(x, y)
            ==> !tiles[j].contains(x, y)
}

/// Some other tile of the sequence is the exact reflection of tile `i`.
pub open spec fn has_mirror_in(tiles: Seq<Tile>, i: int, height: int) -> bool {
    exists|j: int| 0 <= j < tiles.len() && j != i && mirror_geometry(tiles[i], #[trigger] tiles[j], height)
}

/// Every Primary/Mirror pairing in `cl` is mutual, geometrically mirrored,
/// and on the expected side of the axis, and every straddling tile is
/// classified Normal.
pub open spec fn symmetry_consistent(cl: Seq<ClassifiedTile>, height: int) -> bool {
    &&& forall|a: int|
        0 <= a < cl.len() ==> match (#[trigger] cl[a]).kind {
            TileKind::Primary { mirror_index } => {
                &&& mirror_index < cl.len()
                &&& upper_half(cl[a].tile, height)
                &&& cl[mirror_index as int].kind == (TileKind::Mirror { primary_index: a as usize })
                &&& mirror_geometry(cl[a].tile, cl[mirror_index as int].tile, height)
            },
            TileKind::Mirror { primary_index } => {
                &&& primary_index < cl.len()
                &&& lower_half(cl[a].tile, height)
                &&& cl[primary_index as int].kind == (TileKind::Primary { mirror_index: a as usize })
                &&& mirror_geometry(cl[primary_index as int].tile, cl[a].tile, height)
            },
            TileKind::Normal => true,
        }
    &&& forall|a: int|
        0 <= a < cl.len() && straddles_axis((#[trigger] cl[a]).tile, height) ==> cl[a].kind
            == TileKind::Normal
}

/// Index of the first classified tile whose geometry is exactly
/// `(x, y, width, height)`, if any.
fn find_tile_at(tiles: &Vec<ClassifiedTile>, x: u32, y: u32, width: u32, height: u32) -> (r: Option<
    usize,
>)
    ensures
        match r {
            Some(i) => {
                &&& i < tiles@.len()
                &&& tiles@[i as int].tile == (Tile { x, y, width, height })
                &&& forall|j: int|
                    0 <= j < i ==> (#[trigger] tiles@[j]).tile != (Tile { x, y, width, height })
            },
            None => forall|j: int|
                0 <= j < tiles@.len() ==> (#[trigger] tiles@[j]).tile != (Tile {
                    x,
                    y,
                    width,
                    height,
                }),
        },
{
    let n = tiles.len();
    let mut i: usize = 0;
    while i < n
        invariant
            n == tiles@.len(),
            0 <= i <= n,
            forall|j: int|
                0 <= j < i ==> (#[trigger] tiles@[j]).tile != (Tile { x, y, width, height }),
        decreases n - i,
    {
        let t = tiles[i].tile;
        if t.x == x && t.y == y && t.width == width && t.height == height {
            return Some(i);
        }
        i = i + 1;
    }
    None
}

/// Classify tiles for real-axis symmetry exploitation.
///
/// When the view is centred exactly on the real axis (the caller passes
/// `centered_on_axis` after testing the imaginary part of the centre
/// against zero), tiles entirely in the upper half are paired with their
/// exact lower-half reflections, roughly halving the computation; tiles
/// crossing the centre line stay Normal.  Returns `None` when symmetry
/// does not apply.
///
/// The tiles must be pairwise distinct and fit the frame vertically;
/// a grid from [`build_tile_grid`] satisfies both (see
/// [`lemma_grid_partition`]).
pub fn classify_tiles_for_symmetry(
    tiles: &Vec<Tile>,
    viewport_height: u32,
    centered_on_axis: bool,
) -> (r: Option<Vec<ClassifiedTile>>)
    requires
        forall|i: int, j: int| 0 <= i < j < tiles@.len() ==> tiles@[i] != tiles@[j],
        forall|i: int|
            0 <= i < tiles@.len() ==> 0 < (#[trigger] tiles@[i]).height && tiles@[i].y
                + tiles@[i].height <= viewport_height,
    ensures
        r is Some <==> centered_on_axis,
        match r {
            Some(cl) => {
                &&& cl@.len() == tiles@.len()
                &&& forall|i: int| 0 <= i < cl@.len() ==> (#[trigger] cl@[i]).tile == tiles@[i]
                &&& symmetry_consistent(cl@, viewport_height as int)
                &&& forall|i: int|
                    0 <= i < cl@.len() && upper_half((#[trigger] cl@[i]).tile, viewport_height as int)
                        && has_mirror_in(tiles@, i, viewport_height as int) ==> is_primary_kind(
                        cl@[i].kind,
                    )
            },
            None => true,
        },
{
    if !centered_on_axis {
        return None;
    }
    let n = tiles.len();
    let mut classified: Vec<ClassifiedTile> = Vec::new();
    let mut k: usize = 0;
    while k < n
        invariant
            n == tiles@.len(),
            0 <= k <= n,
            classified@.len() == k,
            forall|i: int|
                0 <= i < k ==> (#[trigger] classified@[i]) == (ClassifiedTile {
                    tile: tiles@[i],
                    kind: TileKind::Normal,
                }),
        decreases n - k,
    {
        classified.push(ClassifiedTile { tile: tiles[k], kind: TileKind::Normal });
        k = k + 1;
    }

    let mut i: usize = 0;
    while i < n
        invariant
            n == tiles@.len(),
            classified@.len() == n,
            0 <= i <= n,
            forall|a: int, b: int| 0 <= a < b < tiles@.len() ==> tiles@[a] != tiles@[b],
            forall|a: int|
                0 <= a < n ==> 0 < (#[trigger] tiles@[a]).height && tiles@[a].y + tiles@[a].height
                    <= viewport_height,
            forall|a: int| 0 <= a < n ==> (#[trigger] classified@[a]).tile == tiles@[a],
            symmetry_consistent(classified@, viewport_height as int),
            forall|a: int|
                0 <= a < n && is_primary_kind((#[trigger] classified@[a]).kind) ==> a < i,
            forall|a: int|
                0 <= a < i && upper_half((#[trigger] classified@[a]).tile, viewport_height as int)
                    && has_mirror_in(tiles@, a, viewport_height as int) ==> is_primary_kind(
                    classified@[a].kind,
                ),
        decreases n - i,
    {
        let t = classified[i].tile;
        let bot2 = 2 * ((t.y as u64) + (t.height as u64));
        // tiles crossing the centre line render normally; tiles entirely
        // in the upper half get paired with their lower-half reflection
        if bot2 <= viewport_height as u64 {
            let mirror_y = viewport_height - t.y - t.height;
            if let Some(j) = find_tile_at(&classified, t.x, mirror_y, t.width, t.height) {
                if i != j {
                    proof {
                        let hh = viewport_height as int;
                        let cl = classified@;
                        assert(upper_half(tiles@[i as int], hh));
                        assert(lower_half(cl[j as int].tile, hh));
                        // the slot for this tile is still unclassified
                        assert(cl[i as int].kind == TileKind::Normal) by {
                            match cl[i as int].kind {
                                TileKind::Mirror { primary_index } => {
                                    assert(lower_half(cl[i as int].tile, hh));
                                },
                                _ => {},
                            }
                        }
                        // and so is the slot of its reflection
                        assert(cl[j as int].kind == TileKind::Normal) by {
                            match cl[j as int].kind {
                                TileKind::Primary { mirror_index } => {
                                    assert(upper_half(cl[j as int].tile, hh));
                                },
                                TileKind::Mirror { primary_index } => {
                                    let p = primary_index as int;
                                    assert(mirror_geometry(cl[p].tile, cl[j as int].tile, hh));
                                    assert(cl[p].tile == tiles@[i as int]);
                                    assert(p < i);
                                },
                                TileKind::Normal => {},
                            }
                        }
                    }
                    let ghost pre_cl = classified@;
                    let ti = classified[i].tile;
                    let tj = classified[j].tile;
                    classified[i] = ClassifiedTile {
                        tile: ti,
                        kind: TileKind::Primary { mirror_index: j },
                    };
                    classified[j] = ClassifiedTile {
                        tile: tj,
                        kind: TileKind::Mirror { primary_index: i },
                    };
                    proof {
                        let hh = viewport_height as int;
                        let cl = classified@;
                        let old_cl = pre_cl;
                        assert forall|a: int|
                            0 <= a < cl.len() implies match (#[trigger] cl[a]).kind {
                            TileKind::Primary { mirror_index } => {
                                &&& mirror_index < cl.len()
                                &&& upper_half(cl[a].tile, hh)
                                &&& cl[mirror_index as int].kind == (TileKind::Mirror {
                                    primary_index: a as usize,
                                })
                                &&& mirror_geometry(cl[a].tile, cl[mirror_index as int].tile, hh)
                            },
                            TileKind::Mirror { primary_index } => {
                                &&& primary_index < cl.len()
                                &&& lower_half(cl[a].tile, hh)
                                &&& cl[primary_index as int].kind == (TileKind::Primary {
                                    mirror_index: a as usize,
                                })
                                &&& mirror_geometry(cl[primary_index as int].tile, cl[a].tile, hh)
                            },
                            TileKind::Normal => true,
                        } by {
                            if a != i as int && a != j as int {
                                assert(cl[a] == old_cl[a]);
                            }
                        }
                        assert forall|a: int|
                            0 <= a < cl.len() && straddles_axis(
                                (#[trigger] cl[a]).tile,
                                hh,
                            ) implies cl[a].kind == TileKind::Normal by {
                            if a != i as int && a != j as int {
                                assert(cl[a] == old_cl[a]);
                            }
                        }
                    }
                } else {
                    proof {
                        // the tile cannot be its own reflection: that would
                        // force a zero height
                        let hh = viewport_height as int;
                        assert(classified@[i as int].tile == tiles@[i as int]);
                        assert(tiles@[i as int].y == hh - tiles@[i as int].y
                            - tiles@[i as int].height);
                        assert(2 * (tiles@[i as int].y + tiles@[i as int].height) <= hh);
                        assert(false);
                    }
                }
            } else {
                proof {
                    // no tile matches the reflection, so this tile has no
                    // mirror in the sequence
                    let hh = viewport_height as int;
                    if has_mirror_in(tiles@, i as int, hh) {
                        let j = choose|j: int|
                            0 <= j < tiles@.len() && j != i as int && mirror_geometry(
                                tiles@[i as int],
                                #[trigger] tiles@[j],
                                hh,
                            );
                        assert(classified@[j].tile == tiles@[j]);
                        assert(tiles@[j] == (Tile {
                            x: t.x,
                            y: (viewport_height - t.y - t.height) as u32,
                            width: t.width,
                            height: t.height,
                        }));
                        assert(false);
                    }
                }
            }
        }
        i = i + 1;
    }
    Some(classified)
}

/// An extent that has more than `k` full-or-partial tile sides needs at
/// least `k + 1` of them.
proof fn lemma_dim_count_lower(extent: int, k: int)
    requires
        0 <= k,
        (TILE_SIZE as int) * k < extent,
    ensures
        grid_dim_count(extent) >= k + 1,
{
    let s = TILE_SIZE as int;
    vstd::arithmetic::div_mod::lemma_fundamental_div_mod(extent + s - 1, s);
}

/// An extent strictly between `k` and `k + 1` tile sides takes exactly
/// `k + 1` of them.
proof fn lemma_dim_count_between(extent: int, k: int)
    requires
        0 <= k,
        (TILE_SIZE as int) * k < extent <= (TILE_SIZE as int) * (k + 1),
    ensures
        grid_dim_count(extent) == k + 1,
{
    let s = TILE_SIZE as int;
    vstd::arithmetic::div_mod::lemma_fundamental_div_mod_converse(
        extent + s - 1,
        s,
        k + 1,
        extent + s - 1 - s * (k + 1),
    );
}

/// In a grid, a tile that covers pixel `(px, py)` can only be the one at
/// the row-major index derived from the pixel's tile row and column.
proof fn lemma_grid_tile_index(
    width: int,
    height: int,
    tiles: Seq<Tile>,
    i: int,
    px: int,
    py: int,
)
    requires
        grid_seq(width, height, tiles),
        0 <= i < tiles.len(),
        tiles[i].contains(px, py),
    ensures
        i == (py / (TILE_SIZE as int)) * grid_dim_count(width) + px / (TILE_SIZE as int),
        px / (TILE_SIZE as int) == i % grid_dim_count(width),
        py / (TILE_SIZE as int) == i / grid_dim_count(width),
{
    let s = TILE_SIZE as int;
    let cols = grid_dim_count(width);
    let t = tiles[i];
    let r = i / cols;
    let c = i % cols;
    assert(is_grid_tile(t, width, height, r, c));
    assert(cols > 0) by {
        if cols <= 0 {
            vstd::arithmetic::div_mod::lemma_fundamental_div_mod(i, cols);
        }
    }
    vstd::arithmetic::div_mod::lemma_fundamental_div_mod(i, cols);
    // px sits inside the tile's column band, so px / s recovers c
    assert(c * s <= px < c * s + s) by {
        assert(t.width <= s);
    }
    vstd::arithmetic::div_mod::lemma_fundamental_div_mod_converse(px, s, c, px - c * s);
    assert(r * s <= py < r * s + s) by {
        assert(t.height <= s);
    }
    vstd::arithmetic::div_mod::lemma_fundamental_div_mod_converse(py, s, r, py - r * s);
}

/// Some tile of `tiles` covers the pixel `(px, py)`.
pub open spec fn covers(tiles: Seq<Tile>, px: int, py: int) -> bool {
    exists|i: int| 0 <= i < tiles.len() && (#[trigger] tiles[i]).contains(px, py)
}

/// The tiles of a grid partition the frame: every tile lies inside the
/// frame with sides of at most `TILE_SIZE`, every in-frame pixel is covered
/// by some tile, and no pixel is covered by two tiles.
pub proof fn lemma_grid_partition(width: int, height: int, tiles: Seq<Tile>)
    requires
        grid_seq(width, height, tiles),
    ensures
        forall|i: int|
            0 <= i < tiles.len() ==> (#[trigger] tiles[i]).in_frame(width, height)
                && tiles[i].width <= TILE_SIZE && tiles[i].height <= TILE_SIZE,
        forall|px: int, py: int|
            0 <= px < width && 0 <= py < height ==> #[trigger] covers(tiles, px, py),
        forall|i: int, j: int, px: int, py: int|
            #![trigger tiles[i].contains(px, py), tiles[j].contains(px, py)]
            0 <= i < tiles.len() && 0 <= j < tiles.len() && i != j && tiles[i].contains(px, py)
                ==> !tiles[j].contains(px, py),
        forall|i: int, j: int|
            #![trigger tiles[i], tiles[j]]
            0 <= i < tiles.len() && 0 <= j < tiles.len() && i != j ==> tiles[i] != tiles[j],
{
    let s = TILE_SIZE as int;
    let cols = grid_dim_count(width);
    let rows = grid_dim_count(height);
    assert forall|i: int| 0 <= i < tiles.len() implies (#[trigger] tiles[i]).in_frame(
        width,
        height,
    ) && tiles[i].width <= TILE_SIZE && tiles[i].height <= TILE_SIZE by {
        let r = i / cols;
        let c = i % cols;
        assert(is_grid_tile(tiles[i], width, height, r, c));
        assert(cols > 0) by {
            if cols <= 0 {
                vstd::arithmetic::div_mod::lemma_fundamental_div_mod(i, cols);
            }
        }
        vstd::arithmetic::div_mod::lemma_fundamental_div_mod(i, cols);
        assert(0 <= c < cols);
        assert(0 <= r < rows) by {
            if r < 0 || r >= rows {
                assert((rows * cols <= i || i < 0) || cols <= 0) by (nonlinear_arith)
                    requires
                        i == r * cols + c,
                        0 <= c < cols,
                        r < 0 || r >= rows,
                ;
            }
        }
        // column and row starts lie strictly inside the frame
        assert(c * s < width) by {
            vstd::arithmetic::div_mod::lemma_fundamental_div_mod(width + s - 1, s);
            assert((cols - 1) * s < width) by (nonlinear_arith)
                requires
                    width + s - 1 == s * cols + (width + s - 1) % s,
                    0 <= (width + s - 1) % s < s,
                    s > 0,
            ;
            assert(c * s <= (cols - 1) * s) by (nonlinear_arith)
                requires
                    c <= cols - 1,
                    s > 0,
            ;
        }
        assert(r * s < height) by {
            vstd::arithmetic::div_mod::lemma_fundamental_div_mod(height + s - 1, s);
            assert((rows - 1) * s < height) by (nonlinear_arith)
                requires
                    height + s - 1 == s * rows + (height + s - 1) % s,
                    0 <= (height + s - 1) % s < s,
                    s > 0,
            ;
            assert(r * s <= (rows - 1) * s) by (nonlinear_arith)
                requires
                    r <= rows - 1,
                    s > 0,
            ;
        }
        assert(0 <= c * s && 0 <= r * s) by (nonlinear_arith)
            requires
                0 <= c,
                0 <= r,
                s > 0,
        ;
    }
    assert forall|px: int, py: int| 0 <= px < width && 0 <= py < height implies #[trigger] covers(
        tiles,
        px,
        py,
    ) by {
        let c = px / s;
        let r = py / s;
        vstd::arithmetic::div_mod::lemma_fundamental_div_mod(px, s);
        vstd::arithmetic::div_mod::lemma_fundamental_div_mod(py, s);
        assert(0 <= c && c * s <= px < c * s + s);
        assert(0 <= r && r * s <= py < r * s + s);
        lemma_dim_count_lower(width, c);
        lemma_dim_count_lower(height, r);
        let i = r * cols + c;
        assert(0 <= i < rows * cols) by (nonlinear_arith)
            requires
                i == r * cols + c,
                0 <= c < cols,
                0 <= r < rows,
        ;
        vstd::arithmetic::div_mod::lemma_fundamental_div_mod_converse(i, cols, r, c);
        assert(is_grid_tile(tiles[i], width, height, r, c));
        assert(tiles[i].contains(px, py));
    }
    assert forall|i: int, j: int, px: int, py: int|
        #![trigger tiles[i].contains(px, py), tiles[j].contains(px, py)]
        0 <= i < tiles.len() && 0 <= j < tiles.len() && i != j && tiles[i].contains(px, py)
        implies !tiles[j].contains(px, py) by {
        if tiles[j].contains(px, py) {
            lemma_grid_tile_index(width, height, tiles, i, px, py);
            lemma_grid_tile_index(width, height, tiles, j, px, py);
        }
    }
    assert forall|i: int, j: int|
        #![trigger tiles[i], tiles[j]]
        0 <= i < tiles.len() && 0 <= j < tiles.len() && i != j implies tiles[i] != tiles[j] by {
        if tiles[i] == tiles[j] {
            // equal tiles would cover the same corner pixel, contradicting
            // the disjointness just shown
            let cx = tiles[i].x as int;
            let cy = tiles[i].y as int;
            assert(tiles[i].in_frame(width, height));
            assert(tiles[i].contains(cx, cy));
            assert(tiles[j].contains(cx, cy));
        }
    }
}

/// Build the grid of tiles covering a `width` by `height` frame, row-major,
/// with no gaps and no overlaps (edge tiles may be smaller).
pub fn build_tile_grid(width: u32, height: u32) -> (tiles: Vec<Tile>)
    ensures
        grid_seq(width as int, height as int, tiles@),
{
    let ghost cols = grid_dim_count(width as int);
    let ghost rows = grid_dim_count(height as int);
    let mut tiles: Vec<Tile> = Vec::new();
    let mut y: u32 = 0;
    let ghost mut r: int = 0;
    while y < height
        invariant
            0 <= r <= rows,
            cols == grid_dim_count(width as int),
            rows == grid_dim_count(height as int),
            r < rows ==> y == r * (TILE_SIZE as int) && y < height,
            r == rows ==> y >= height,
            tiles@.len() == r * cols,
            forall|i: int|
                0 <= i < tiles@.len() ==> is_grid_tile(
                    #[trigger] tiles@[i],
                    width as int,
                    height as int,
                    i / cols,
                    i % cols,
                ),
        decreases height - y,
    {
        proof {
            if r == rows {
                assert(false);
            }
        }
        let th = if height - y < TILE_SIZE {
            height - y
        } else {
            TILE_SIZE
        };
        let mut x: u32 = 0;
        let ghost mut c: int = 0;
        while x < width
            invariant
                0 <= c <= cols,
                0 <= r < rows,
                cols == grid_dim_count(width as int),
                rows == grid_dim_count(height as int),
                y == r * (TILE_SIZE as int),
                y < height,
                th == tile_side(height as int - y),
                c < cols ==> x == c * (TILE_SIZE as int) && x < width,
                c == cols ==> x >= width,
                tiles@.len() == r * cols + c,
                forall|i: int|
                    0 <= i < tiles@.len() ==> is_grid_tile(
                        #[trigger] tiles@[i],
                        width as int,
                        height as int,
                        i / cols,
                        i % cols,
                    ),
            decreases width - x,
        {
            proof {
                if c == cols {
                    assert(false);
                }
            }
            let tw = if width - x < TILE_SIZE {
                width - x
            } else {
                TILE_SIZE
            };
            tiles.push(Tile { x, y, width: tw, height: th });
            proof {
                assert(cols > 0);
                vstd::arithmetic::div_mod::lemma_fundamental_div_mod_converse(
                    r * cols + c,
                    cols,
                    r,
                    c,
                );
                assert(is_grid_tile(
                    tiles@[r * cols + c],
                    width as int,
                    height as int,
                    r,
                    c,
                ));
            }
            x = x + tw;
            proof {
                let s = TILE_SIZE as int;
                c = c + 1;
                if x < width {
                    // a full tile side was taken and columns remain
                    assert(x == c * s);
                    lemma_dim_count_lower(width as int, c);
                } else {
                    // this was the last column of the row
                    assert(s * (c - 1) < width as int);
                    assert(width as int <= s * c);
                    lemma_dim_count_between(width as int, c - 1);
                }
            }
        }
        y = y + th;
        proof {
            let s = TILE_SIZE as int;
            let r0 = r;
            r = r + 1;
            assert((r0 + 1) * cols == r0 * cols + cols) by (nonlinear_arith);
            if y < height {
                assert(y == r * s);
                lemma_dim_count_lower(height as int, r);
            } else {
                assert(s * (r - 1) < height as int);
                assert(height as int <= s * r);
                lemma_dim_count_between(height as int, r - 1);
            }
        }
    }
    proof {
        if r < rows {
            assert(false);
        }
    }
    tiles
}

} // verus!
