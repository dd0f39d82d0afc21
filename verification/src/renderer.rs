//! Frame assembly from tile results, the border-trace decision, mirror
//! reconstruction, and cooperative cancellation.

use core::sync::atomic::{AtomicU64, AtomicUsize, Ordering};

use vstd::prelude::*;

use crate::aa::AaSamples;
use crate::iteration::IterationResult;
use crate::iteration_buffer::{lemma_pixel_coords, lemma_pixel_index, pixel_index, IterationBuffer};
use crate::tile::{is_mirror_kind, primary_index_of, symmetry_consistent, tiles_disjoint, ClassifiedTile, Tile, TileKind};

verus! {

/// Tracks the current render generation for cancellation and progress.
///
/// Incrementing the generation signals all in-flight tiles to stop early.
/// The progress counters let a UI display a progress bar.  The values are
/// written and read concurrently, so nothing can be promised about what a
/// load observes beyond what the platform's atomics give.
#[derive(Debug)]
pub struct RenderCancel {
    generation: AtomicU64,
    progress_done: AtomicUsize,
    progress_total: AtomicUsize,
}

impl RenderCancel {
    pub fn new() -> RenderCancel {
        RenderCancel {
            generation: AtomicU64::new(0),
            progress_done: AtomicUsize::new(0),
            progress_total: AtomicUsize::new(0),
        }
    }

    /// Cancel the current render by advancing the generation.
    pub fn cancel(&self) {
        self.generation.fetch_add(1, Ordering::SeqCst);
    }

    /// Read the current generation.
    pub fn generation(&self) -> u64 {
        self.generation.load(Ordering::SeqCst)
    }

    /// Reset progress for a new phase with `total` work units.
    pub fn reset_progress(&self, total: usize) {
        self.progress_total.store(total, Ordering::Relaxed);
        self.progress_done.store(0, Ordering::Relaxed);
    }

    /// Increment completed work units by one.
    pub fn inc_progress(&self) {
        self.progress_done.fetch_add(1, Ordering::Relaxed);
    }

    /// Read the current progress as `(done, total)`.
    pub fn progress(&self) -> (usize, usize) {
        (self.progress_done.load(Ordering::Relaxed), self.progress_total.load(Ordering::Relaxed))
    }
}

/// The result of a full-frame render.
///
/// Contains raw iteration data (no coloring) — the caller applies a
/// palette to produce displayable pixels.  The timing is recorded by the
/// driver that ran the render.
pub struct RenderResult {
    pub iterations: IterationBuffer,
    pub aa_samples: Option<AaSamples>,
    pub elapsed_micros: u64,
    pub cancelled: bool,
    pub tiles_rendered: usize,
    pub tiles_mirrored: usize,
    pub tiles_border_traced: usize,
}

/// Every result in the sequence has the same class as the first one.
pub open spec fn all_same_class(border: Seq<IterationResult>) -> bool {
    forall|i: int| 0 <= i < border.len() ==> (#[trigger] border[i]).spec_class()
        == border[0].spec_class()
}

/// The border-trace decision: if every border pixel of the tile shares one
/// iteration class, return the first result so the tile can be flood
/// filled in O(border) instead of O(area).
///
/// `border` holds the results of all of the tile's border pixels, starting
/// with the tile's top-left corner.  Tiles smaller than 3x3 are never
/// border traced.  This is a heuristic: a tile whose border is uniform is
/// assumed to have a uniform interior, and the caller always recomputes
/// the tile in full when the check fails.
pub fn check_border_uniform(tile: &Tile, border: &Vec<IterationResult>) -> (r: Option<
    IterationResult,
>)
    ensures
        tile.width < 3 || tile.height < 3 ==> r is None,
        tile.width >= 3 && tile.height >= 3 ==> {
            &&& (r is Some <==> (border@.len() > 0 && all_same_class(border@)))
            &&& (r is Some ==> r == Some(border@[0]))
        },
{
    if tile.width < 3 || tile.height < 3 {
        return None;
    }
    let len = border.len();
    if len == 0 {
        return None;
    }
    let class = border[0].class();
    let mut i: usize = 1;
    while i < len
        invariant
            len == border@.len(),
            0 < len,
            1 <= i <= len,
            class == border@[0].spec_class(),
            forall|j: int| 0 <= j < i ==> (#[trigger] border@[j]).spec_class() == class,
        decreases len - i,
    {
        if border[i].class() != class {
            return None;
        }
        i = i + 1;
    }
    Some(border[0])
}

/// The data a flood fill writes for a uniform tile: `count` copies of the
/// representative result.
pub fn uniform_tile_data(fill: IterationResult, count: usize) -> (data: Vec<IterationResult>)
    ensures
        data@.len() == count,
        forall|i: int| 0 <= i < count ==> data@[i] == fill,
{
    vec![fill; count]
}

/// Number of tiles whose computation completed (their data slot is
/// occupied).
pub open spec fn count_some(td: Seq<Option<Vec<IterationResult>>>) -> int
    decreases td.len(),
{
    if td.len() == 0 {
        0
    } else {
        count_some(td.drop_last()) + if td.last() is Some {
            1int
        } else {
            0int
        }
    }
}

/// Count the tile slots that hold rendered data.
pub fn count_rendered(tile_data: &Vec<Option<Vec<IterationResult>>>) -> (n: usize)
    ensures
        n == count_some(tile_data@),
{
    let len = tile_data.len();
    let mut n: usize = 0;
    let mut i: usize = 0;
    while i < len
        invariant
            len == tile_data@.len(),
            0 <= i <= len,
            n == count_some(tile_data@.take(i as int)),
            n <= i,
        decreases len - i,
    {
        proof {
            assert(tile_data@.take(i as int + 1).drop_last() =~= tile_data@.take(i as int));
            assert(tile_data@.take(i as int + 1).last() == tile_data@[i as int]);
        }
        if tile_data[i].is_some() {
            n = n + 1;
        }
        i = i + 1;
    }
    proof {
        assert(tile_data@.take(len as int) =~= tile_data@);
    }
    n
}

/// Number of Mirror entries in a classification.
pub open spec fn count_mirror(cl: Seq<ClassifiedTile>) -> int
    decreases cl.len(),
{
    if cl.len() == 0 {
        0
    } else {
        count_mirror(cl.drop_last()) + if is_mirror_kind(cl.last().kind) {
            1int
        } else {
            0int
        }
    }
}

/// Count the Mirror tiles of a classification.
pub fn count_mirrors(classified: &Vec<ClassifiedTile>) -> (n: usize)
    ensures
        n == count_mirror(classified@),
{
    let len = classified.len();
    let mut n: usize = 0;
    let mut i: usize = 0;
    while i < len
        invariant
            len == classified@.len(),
            0 <= i <= len,
            n == count_mirror(classified@.take(i as int)),
            n <= i,
        decreases len - i,
    {
        proof {
            assert(classified@.take(i as int + 1).drop_last() =~= classified@.take(i as int));
            assert(classified@.take(i as int + 1).last() == classified@[i as int]);
        }
        let mirror = match classified[i].kind {
            TileKind::Mirror { .. } => true,
            _ => false,
        };
        if mirror {
            n = n + 1;
        }
        i = i + 1;
    }
    proof {
        assert(classified@.take(len as int) =~= classified@);
    }
    n
}

/// An in-frame pixel's flat index lies below the frame's pixel count.
proof fn proof_pixel_in_bounds(width: int, height: int, x: int, y: int)
    requires
        0 <= x < width,
        0 <= y < height,
    ensures
        0 <= pixel_index(width, x, y) < width * height,
{
    lemma_pixel_index(width, x, y);
    assert(y * width + x < height * width) by (nonlinear_arith)
        requires
            0 <= x < width,
            0 <= y < height,
    ;
    assert(height * width == width * height) by (nonlinear_arith);
}

/// Some rendered (data-carrying) tile covers the pixel at flat index `p`.
pub open spec fn rendered_covers(
    tiles: Seq<Tile>,
    td: Seq<Option<Vec<IterationResult>>>,
    width: int,
    p: int,
) -> bool {
    exists|i: int|
        0 <= i < tiles.len() && (#[trigger] tiles[i]).contains(p % width, p / width) && td[i]
            is Some
}

/// What a completed plain assembly holds: each covered pixel of a
/// rendered tile shows that tile's data, and every other pixel keeps its
/// prior value.
pub open spec fn assembled_normal(
    data: Seq<IterationResult>,
    prior: Seq<IterationResult>,
    width: int,
    tiles: Seq<Tile>,
    td: Seq<Option<Vec<IterationResult>>>,
) -> bool {
    &&& forall|i: int, x: int, y: int|
        #![trigger tiles[i].contains(x, y)]
        0 <= i < tiles.len() && tiles[i].contains(x, y) && td[i] is Some ==> data[pixel_index(
            width,
            x,
            y,
        )] == td[i].unwrap()@[(y - tiles[i].y) * tiles[i].width + (x - tiles[i].x)]
    &&& forall|p: int|
        0 <= p < prior.len() && !rendered_covers(tiles, td, width, p) ==> data[p] == prior[p]
}

/// Assemble tile results into the iteration buffer (no symmetry): each
/// rendered tile's data lands in its region, everything else is untouched.
///
/// The tiles must be disjoint and in frame; a grid from
/// [`crate::tile::build_tile_grid`] satisfies both.
pub fn assemble_normal(
    buffer: &mut IterationBuffer,
    tiles: &Vec<Tile>,
    tile_data: &Vec<Option<Vec<IterationResult>>>,
)
    requires
        old(buffer).wf(),
        tiles@.len() == tile_data@.len(),
        tiles_disjoint(tiles@),
        forall|i: int|
            0 <= i < tiles@.len() ==> (#[trigger] tiles@[i]).in_frame(
                old(buffer).width as int,
                old(buffer).height as int,
            ),
        forall|i: int|
            0 <= i < tiles@.len() && (#[trigger] tile_data@[i]) is Some ==> tile_data@[i].unwrap()@.len()
                == tiles@[i].spec_pixel_count(),
    ensures
        final(buffer).wf(),
        final(buffer).width == old(buffer).width,
        final(buffer).height == old(buffer).height,
        final(buffer).max_iterations == old(buffer).max_iterations,
        assembled_normal(
            final(buffer).data@,
            old(buffer).data@,
            old(buffer).width as int,
            tiles@,
            tile_data@,
        ),
{
    let ghost wi = old(buffer).width as int;
    let len = tiles.len();
    let mut k: usize = 0;
    while k < len
        invariant
            buffer.wf(),
            buffer.width == old(buffer).width,
            buffer.height == old(buffer).height,
            buffer.max_iterations == old(buffer).max_iterations,
            buffer.data@.len() == old(buffer).data@.len(),
            wi == old(buffer).width as int,
            len == tiles@.len(),
            tiles@.len() == tile_data@.len(),
            tiles_disjoint(tiles@),
            forall|i: int|
                0 <= i < tiles@.len() ==> (#[trigger] tiles@[i]).in_frame(
                    old(buffer).width as int,
                    old(buffer).height as int,
                ),
            forall|i: int|
                0 <= i < tiles@.len() && (#[trigger] tile_data@[i]) is Some ==> tile_data@[
                    i].unwrap()@.len() == tiles@[i].spec_pixel_count(),
            0 <= k <= len,
            forall|i: int, x: int, y: int|
                #![trigger tiles@[i].contains(x, y)]
                0 <= i < k && tiles@[i].contains(x, y) && tile_data@[i] is Some ==> buffer.data@[
                    pixel_index(wi, x, y)] == tile_data@[i].unwrap()@[(y - tiles@[i].y)
                    * tiles@[i].width + (x - tiles@[i].x)],
            forall|p: int|
                0 <= p < old(buffer).data@.len() && (forall|i: int|
                    0 <= i < k ==> !((#[trigger] tiles@[i]).contains(p % wi, p / wi)
                        && tile_data@[i] is Some)) ==> buffer.data@[p] == old(buffer).data@[p],
        decreases len - k,
    {
        let ghost pre = buffer.data@;
        let d = &tile_data[k];
        match d {
            Some(data) => {
                buffer.blit_tile(&tiles[k], data);
                proof {
                    assert forall|i: int, x: int, y: int|
                        #![trigger tiles@[i].contains(x, y)]
                        0 <= i < k + 1 && tiles@[i].contains(x, y) && tile_data@[i]
                            is Some implies buffer.data@[pixel_index(wi, x, y)] == tile_data@[
                        i].unwrap()@[(y - tiles@[i].y) * tiles@[i].width + (x - tiles@[i].x)] by {
                        lemma_pixel_index(wi, x, y);
                        proof_pixel_in_bounds(wi, old(buffer).height as int, x, y);
                        if i < k {
                            assert(!tiles@[k as int].contains(x, y));
                        }
                    }
                    assert forall|p: int|
                        0 <= p < old(buffer).data@.len() && (forall|i: int|
                            0 <= i < k + 1 ==> !((#[trigger] tiles@[i]).contains(p % wi, p / wi)
                                && tile_data@[i] is Some)) implies buffer.data@[p] == old(buffer).data@[p] by {
                        assert(!tiles@[k as int].contains(p % wi, p / wi));
                        assert(buffer.data@[p] == pre[p]);
                    }
                }
            },
            None => {},
        }
        k = k + 1;
    }
    proof {
        assert forall|p: int|
            0 <= p < old(buffer).data@.len() && !rendered_covers(tiles@, tile_data@, wi, p) implies
            buffer.data@[p] == old(buffer).data@[p] by {
            assert forall|i: int| 0 <= i < len implies !((#[trigger] tiles@[i]).contains(
                p % wi,
                p / wi,
            ) && tile_data@[i] is Some) by {
                if tiles@[i].contains(p % wi, p / wi) && tile_data@[i] is Some {
                    assert(rendered_covers(tiles@, tile_data@, wi, p));
                }
            }
        }
    }
}

/// What a completed symmetric assembly holds: each covered pixel of a
/// Normal or Primary tile shows that tile's own data, and each covered
/// pixel of a Mirror tile shows its primary's data with rows flipped.
pub open spec fn assembled_symmetric(
    data: Seq<IterationResult>,
    width: int,
    cl: Seq<ClassifiedTile>,
    td: Seq<Option<Vec<IterationResult>>>,
) -> bool {
    forall|i: int, x: int, y: int|
        #![trigger cl[i].tile.contains(x, y)]
        0 <= i < cl.len() && cl[i].tile.contains(x, y) ==> match cl[i].kind {
            TileKind::Mirror { primary_index } => td[primary_index as int] is Some
                ==> data[pixel_index(width, x, y)] == td[primary_index as int].unwrap()@[(
            cl[i].tile.height - 1 - (y - cl[i].tile.y)) * cl[i].tile.width + (x - cl[i].tile.x)],
            _ => td[i] is Some ==> data[pixel_index(width, x, y)] == td[i].unwrap()@[(y
                - cl[i].tile.y) * cl[i].tile.width + (x - cl[i].tile.x)],
        }
}

/// Some tile with effective data covers the pixel at flat index `p`: its
/// own data for Normal and Primary tiles, its primary's for Mirror tiles.
pub open spec fn symmetric_covers(
    cl: Seq<ClassifiedTile>,
    td: Seq<Option<Vec<IterationResult>>>,
    width: int,
    p: int,
) -> bool {
    exists|i: int|
        0 <= i < cl.len() && (#[trigger] cl[i]).tile.contains(p % width, p / width) && (match cl[
            i].kind {
            TileKind::Mirror { primary_index } => td[primary_index as int] is Some,
            _ => td[i] is Some,
        })
}

/// Assemble tile results with symmetry: rendered Normal and Primary tiles
/// land in their regions, and each Mirror tile is reconstructed by
/// vertically flipping its primary's rows.
///
/// The classification must be consistent and its tiles disjoint and in
/// frame, as [`crate::tile::classify_tiles_for_symmetry`] over a grid
/// guarantees; Mirror slots carry no data of their own.
pub fn assemble_symmetric(
    buffer: &mut IterationBuffer,
    classified: &Vec<ClassifiedTile>,
    tile_data: &Vec<Option<Vec<IterationResult>>>,
)
    requires
        old(buffer).wf(),
        classified@.len() == tile_data@.len(),
        tiles_disjoint(classified@.map_values(|ct: ClassifiedTile| ct.tile)),
        symmetry_consistent(classified@, old(buffer).height as int),
        forall|i: int|
            0 <= i < classified@.len() ==> (#[trigger] classified@[i]).tile.in_frame(
                old(buffer).width as int,
                old(buffer).height as int,
            ),
        forall|i: int|
            0 <= i < classified@.len() && (#[trigger] tile_data@[i]) is Some ==> tile_data@[
                i].unwrap()@.len() == classified@[i].tile.spec_pixel_count(),
        forall|i: int|
            0 <= i < classified@.len() && is_mirror_kind((#[trigger] classified@[i]).kind)
                ==> tile_data@[i] is None,
    ensures
        final(buffer).wf(),
        final(buffer).width == old(buffer).width,
        final(buffer).height == old(buffer).height,
        final(buffer).max_iterations == old(buffer).max_iterations,
        assembled_symmetric(
            final(buffer).data@,
            old(buffer).width as int,
            classified@,
            tile_data@,
        ),
        forall|p: int|
            0 <= p < old(buffer).data@.len() && !symmetric_covers(
                classified@,
                tile_data@,
                old(buffer).width as int,
                p,
            ) ==> final(buffer).data@[p] == old(buffer).data@[p],
{
    let ghost wi = old(buffer).width as int;
    let ghost tiles_of = classified@.map_values(|ct: ClassifiedTile| ct.tile);
    let len = classified.len();

    // first pass: blit all rendered tiles (Normal + Primary)
    let mut k: usize = 0;
    while k < len
        invariant
            buffer.wf(),
            buffer.width == old(buffer).width,
            buffer.height == old(buffer).height,
            buffer.max_iterations == old(buffer).max_iterations,
            buffer.data@.len() == old(buffer).data@.len(),
            wi == old(buffer).width as int,
            len == classified@.len(),
            classified@.len() == tile_data@.len(),
            tiles_of == classified@.map_values(|ct: ClassifiedTile| ct.tile),
            tiles_disjoint(tiles_of),
            symmetry_consistent(classified@, old(buffer).height as int),
            forall|i: int|
                0 <= i < classified@.len() ==> (#[trigger] classified@[i]).tile.in_frame(
                    old(buffer).width as int,
                    old(buffer).height as int,
                ),
            forall|i: int|
                0 <= i < classified@.len() && (#[trigger] tile_data@[i]) is Some ==> tile_data@[
                    i].unwrap()@.len() == classified@[i].tile.spec_pixel_count(),
            forall|i: int|
                0 <= i < classified@.len() && is_mirror_kind((#[trigger] classified@[i]).kind)
                    ==> tile_data@[i] is None,
            0 <= k <= len,
            forall|i: int, x: int, y: int|
                #![trigger classified@[i].tile.contains(x, y)]
                0 <= i < k && classified@[i].tile.contains(x, y) && tile_data@[i] is Some
                    ==> buffer.data@[pixel_index(wi, x, y)] == tile_data@[i].unwrap()@[(y
                    - classified@[i].tile.y) * classified@[i].tile.width + (x
                    - classified@[i].tile.x)],
            forall|p: int|
                0 <= p < old(buffer).data@.len() && (forall|i: int|
                    0 <= i < k ==> !((#[trigger] classified@[i]).tile.contains(p % wi, p / wi)
                        && tile_data@[i] is Some)) ==> buffer.data@[p] == old(buffer).data@[p],
        decreases len - k,
    {
        let ghost pre = buffer.data@;
        let d = &tile_data[k];
        match d {
            Some(data) => {
                let t = classified[k].tile;
                buffer.blit_tile(&t, data);
                proof {
                    assert forall|i: int, x: int, y: int|
                        #![trigger classified@[i].tile.contains(x, y)]
                        0 <= i < k + 1 && classified@[i].tile.contains(x, y) && tile_data@[i]
                            is Some implies buffer.data@[pixel_index(wi, x, y)] == tile_data@[
                        i].unwrap()@[(y - classified@[i].tile.y) * classified@[i].tile.width + (x
                        - classified@[i].tile.x)] by {
                        lemma_pixel_index(wi, x, y);
                        proof_pixel_in_bounds(wi, old(buffer).height as int, x, y);
                        if i < k {
                            assert(tiles_of[i] == classified@[i].tile);
                            assert(tiles_of[k as int] == classified@[k as int].tile);
                            assert(!classified@[k as int].tile.contains(x, y));
                        }
                    }
                    assert forall|p: int|
                        0 <= p < old(buffer).data@.len() && (forall|i: int|
                            0 <= i < k + 1 ==> !((#[trigger] classified@[i]).tile.contains(
                                p % wi,
                                p / wi,
                            ) && tile_data@[i] is Some)) implies buffer.data@[p] == old(buffer).data@[p] by {
                        assert(!classified@[k as int].tile.contains(p % wi, p / wi));
                        assert(buffer.data@[p] == pre[p]);
                    }
                }
            },
            None => {},
        }
        k = k + 1;
    }

    // second pass: reconstruct mirrors from their primary's data
    let mut k: usize = 0;
    while k < len
        invariant
            buffer.wf(),
            buffer.width == old(buffer).width,
            buffer.height == old(buffer).height,
            buffer.max_iterations == old(buffer).max_iterations,
            buffer.data@.len() == old(buffer).data@.len(),
            wi == old(buffer).width as int,
            len == classified@.len(),
            classified@.len() == tile_data@.len(),
            tiles_of == classified@.map_values(|ct: ClassifiedTile| ct.tile),
            tiles_disjoint(tiles_of),
            symmetry_consistent(classified@, old(buffer).height as int),
            forall|i: int|
                0 <= i < classified@.len() ==> (#[trigger] classified@[i]).tile.in_frame(
                    old(buffer).width as int,
                    old(buffer).height as int,
                ),
            forall|i: int|
                0 <= i < classified@.len() && (#[trigger] tile_data@[i]) is Some ==> tile_data@[
                    i].unwrap()@.len() == classified@[i].tile.spec_pixel_count(),
            forall|i: int|
                0 <= i < classified@.len() && is_mirror_kind((#[trigger] classified@[i]).kind)
                    ==> tile_data@[i] is None,
            0 <= k <= len,
            forall|i: int, x: int, y: int|
                #![trigger classified@[i].tile.contains(x, y)]
                0 <= i < len && classified@[i].tile.contains(x, y) && tile_data@[i] is Some
                    ==> buffer.data@[pixel_index(wi, x, y)] == tile_data@[i].unwrap()@[(y
                    - classified@[i].tile.y) * classified@[i].tile.width + (x
                    - classified@[i].tile.x)],
            forall|i: int, x: int, y: int|
                #![trigger classified@[i].tile.contains(x, y)]
                0 <= i < k && classified@[i].tile.contains(x, y) && is_mirror_kind(
                    classified@[i].kind,
                ) && tile_data@[primary_index_of(classified@[i].kind)] is Some ==> buffer.data@[
                    pixel_index(wi, x, y)] == tile_data@[primary_index_of(
                    classified@[i].kind,
                )].unwrap()@[(classified@[i].tile.height - 1 - (y - classified@[i].tile.y))
                    * classified@[i].tile.width + (x - classified@[i].tile.x)],
            forall|p: int|
                0 <= p < old(buffer).data@.len() && (forall|i: int|
                    0 <= i < len ==> !((#[trigger] classified@[i]).tile.contains(p % wi, p / wi)
                        && tile_data@[i] is Some)) && (forall|i: int|
                    0 <= i < k ==> !((#[trigger] classified@[i]).tile.contains(p % wi, p / wi)
                        && is_mirror_kind(classified@[i].kind) && tile_data@[primary_index_of(
                        classified@[i].kind,
                    )] is Some)) ==> buffer.data@[p] == old(buffer).data@[p],
        decreases len - k,
    {
        let ghost pre = buffer.data@;
        let kind = classified[k].kind;
        match kind {
            TileKind::Mirror { primary_index } => {
                let d = &tile_data[primary_index];
                match d {
                    Some(primary_data) => {
                        let t = classified[k].tile;
                        proof {
                            assert(classified@[primary_index as int].tile.spec_pixel_count()
                                == t.spec_pixel_count());
                        }
                        buffer.blit_tile_mirrored(&t, primary_data);
                        proof {
                            assert forall|i: int, x: int, y: int|
                                #![trigger classified@[i].tile.contains(x, y)]
                                0 <= i < len && classified@[i].tile.contains(x, y) && tile_data@[i]
                                    is Some implies buffer.data@[pixel_index(wi, x, y)]
                                == tile_data@[i].unwrap()@[(y - classified@[i].tile.y)
                                * classified@[i].tile.width + (x - classified@[i].tile.x)] by {
                                lemma_pixel_index(wi, x, y);
                                proof_pixel_in_bounds(wi, old(buffer).height as int, x, y);
                                assert(tiles_of[i] == classified@[i].tile);
                                assert(tiles_of[k as int] == classified@[k as int].tile);
                                assert(i != k as int);
                                assert(!classified@[k as int].tile.contains(x, y));
                            }
                            assert forall|i: int, x: int, y: int|
                                #![trigger classified@[i].tile.contains(x, y)]
                                0 <= i < k + 1 && classified@[i].tile.contains(x, y)
                                    && is_mirror_kind(classified@[i].kind) && tile_data@[
                                primary_index_of(classified@[i].kind)] is Some implies buffer.data@[
                                pixel_index(wi, x, y)] == tile_data@[primary_index_of(
                                classified@[i].kind,
                            )].unwrap()@[(classified@[i].tile.height - 1 - (y
                                - classified@[i].tile.y)) * classified@[i].tile.width + (x
                                - classified@[i].tile.x)] by {
                                lemma_pixel_index(wi, x, y);
                                proof_pixel_in_bounds(wi, old(buffer).height as int, x, y);
                                if i < k {
                                    assert(tiles_of[i] == classified@[i].tile);
                                    assert(tiles_of[k as int] == classified@[k as int].tile);
                                    assert(!classified@[k as int].tile.contains(x, y));
                                }
                            }
                            assert forall|p: int|
                                0 <= p < old(buffer).data@.len() && (forall|i: int|
                                    0 <= i < len ==> !((#[trigger] classified@[i]).tile.contains(
                                        p % wi,
                                        p / wi,
                                    ) && tile_data@[i] is Some)) && (forall|i: int|
                                    0 <= i < k + 1 ==> !((#[trigger] classified@[i]).tile.contains(
                                        p % wi,
                                        p / wi,
                                    ) && is_mirror_kind(classified@[i].kind) && tile_data@[
                                    primary_index_of(classified@[i].kind)] is Some)) implies
                                buffer.data@[p] == old(buffer).data@[p] by {
                                assert(!classified@[k as int].tile.contains(p % wi, p / wi));
                                assert(buffer.data@[p] == pre[p]);
                            }
                        }
                    },
                    None => {},
                }
            },
            _ => {},
        }
        k = k + 1;
    }
    proof {
        assert forall|i: int, x: int, y: int|
            #![trigger classified@[i].tile.contains(x, y)]
            0 <= i < classified@.len() && classified@[i].tile.contains(x, y) implies match
            classified@[i].kind {
            TileKind::Mirror { primary_index } => tile_data@[primary_index as int] is Some
                ==> buffer.data@[pixel_index(wi, x, y)] == tile_data@[
            primary_index as int].unwrap()@[(classified@[i].tile.height - 1 - (y
                - classified@[i].tile.y)) * classified@[i].tile.width + (x
                - classified@[i].tile.x)],
            _ => tile_data@[i] is Some ==> buffer.data@[pixel_index(wi, x, y)] == tile_data@[
            i].unwrap()@[(y - classified@[i].tile.y) * classified@[i].tile.width + (x
                - classified@[i].tile.x)],
        } by {
            match classified@[i].kind {
                TileKind::Mirror { primary_index } => {
                    assert(primary_index_of(classified@[i].kind) == primary_index as int);
                },
                _ => {},
            }
        }
        assert forall|p: int|
            0 <= p < old(buffer).data@.len() && !symmetric_covers(
                classified@,
                tile_data@,
                wi,
                p,
            ) implies buffer.data@[p] == old(buffer).data@[p] by {
            assert forall|i: int| 0 <= i < len implies !((#[trigger] classified@[i]).tile.contains(
                p % wi,
                p / wi,
            ) && tile_data@[i] is Some) by {
                if classified@[i].tile.contains(p % wi, p / wi) && tile_data@[i] is Some {
                    assert(symmetric_covers(classified@, tile_data@, wi, p));
                }
            }
            assert forall|i: int| 0 <= i < len implies !((#[trigger] classified@[i]).tile.contains(
                p % wi,
                p / wi,
            ) && is_mirror_kind(classified@[i].kind) && tile_data@[primary_index_of(
                classified@[i].kind,
            )] is Some) by {
                if classified@[i].tile.contains(p % wi, p / wi) && is_mirror_kind(
                    classified@[i].kind,
                ) && tile_data@[primary_index_of(classified@[i].kind)] is Some {
                    assert(symmetric_covers(classified@, tile_data@, wi, p));
                }
            }
        }
    }
}

/// For a consistent symmetric assembly, each pixel of a reconstructed
/// Mirror tile equals the vertically reflected pixel of the frame: the
/// mirrored half repeats the upper half line for line.
pub proof fn lemma_mirror_reflection(
    data: Seq<IterationResult>,
    width: int,
    height: int,
    cl: Seq<ClassifiedTile>,
    td: Seq<Option<Vec<IterationResult>>>,
    i: int,
    x: int,
    y: int,
)
    requires
        symmetry_consistent(cl, height),
        assembled_symmetric(data, width, cl, td),
        cl.len() == td.len(),
        0 <= i < cl.len(),
        is_mirror_kind(cl[i].kind),
        cl[i].tile.contains(x, y),
        td[primary_index_of(cl[i].kind)] is Some,
    ensures
        data[pixel_index(width, x, y)] == data[pixel_index(width, x, height - 1 - y)],
{
    match cl[i].kind {
        TileKind::Mirror { primary_index } => {
            let pr = primary_index as int;
            let m = cl[i].tile;
            let p = cl[pr].tile;
            assert(cl[pr].kind == (TileKind::Primary { mirror_index: i as usize }));
            assert(p.contains(x, height - 1 - y));
            assert(data[pixel_index(width, x, height - 1 - y)] == td[pr].unwrap()@[((height - 1 - y)
                - p.y) * p.width + (x - p.x)]);
            assert(data[pixel_index(width, x, y)] == td[pr].unwrap()@[(m.height - 1 - (y - m.y))
                * m.width + (x - m.x)]);
            assert(((height - 1 - y) - p.y) == (m.height - 1 - (y - m.y)));
        },
        _ => {},
    }
}

/// The plain assembly contract pins the frame: any two frames that
/// satisfy it over the same prior contents, tiles and tile data are
/// identical.  Together with the determinism of the per-tile computation
/// this gives frame-level determinism of a render.
pub proof fn lemma_assembled_normal_unique(
    d1: Seq<IterationResult>,
    d2: Seq<IterationResult>,
    prior: Seq<IterationResult>,
    width: int,
    height: int,
    tiles: Seq<Tile>,
    td: Seq<Option<Vec<IterationResult>>>,
)
    requires
        0 < width,
        prior.len() == width * height,
        d1.len() == prior.len(),
        d2.len() == prior.len(),
        assembled_normal(d1, prior, width, tiles, td),
        assembled_normal(d2, prior, width, tiles, td),
    ensures
        d1 == d2,
{
    assert forall|p: int| 0 <= p < prior.len() implies d1[p] == d2[p] by {
        lemma_pixel_coords(width, height, p);
        let x = p % width;
        let y = p / width;
        if rendered_covers(tiles, td, width, p) {
            let i = choose|i: int|
                0 <= i < tiles.len() && (#[trigger] tiles[i]).contains(x, y) && td[i] is Some;
            assert(d1[pixel_index(width, x, y)] == td[i].unwrap()@[(y - tiles[i].y)
                * tiles[i].width + (x - tiles[i].x)]);
            assert(d2[pixel_index(width, x, y)] == td[i].unwrap()@[(y - tiles[i].y)
                * tiles[i].width + (x - tiles[i].x)]);
        }
    }
    assert(d1 =~= d2);
}

/// The symmetric assembly contract pins the frame in the same way.
pub proof fn lemma_assembled_symmetric_unique(
    d1: Seq<IterationResult>,
    d2: Seq<IterationResult>,
    prior: Seq<IterationResult>,
    width: int,
    height: int,
    cl: Seq<ClassifiedTile>,
    td: Seq<Option<Vec<IterationResult>>>,
)
    requires
        0 < width,
        prior.len() == width * height,
        d1.len() == prior.len(),
        d2.len() == prior.len(),
        assembled_symmetric(d1, width, cl, td),
        assembled_symmetric(d2, width, cl, td),
        forall|p: int|
            0 <= p < prior.len() && !symmetric_covers(cl, td, width, p) ==> d1[p] == prior[p],
        forall|p: int|
            0 <= p < prior.len() && !symmetric_covers(cl, td, width, p) ==> d2[p] == prior[p],
    ensures
        d1 == d2,
{
    assert forall|p: int| 0 <= p < prior.len() implies d1[p] == d2[p] by {
        lemma_pixel_coords(width, height, p);
        let x = p % width;
        let y = p / width;
        if symmetric_covers(cl, td, width, p) {
            let i = choose|i: int|
                0 <= i < cl.len() && (#[trigger] cl[i]).tile.contains(x, y) && (match cl[i].kind {
                    TileKind::Mirror { primary_index } => td[primary_index as int] is Some,
                    _ => td[i] is Some,
                });
            assert(cl[i].tile.contains(x, y));
            match cl[i].kind {
                TileKind::Mirror { primary_index } => {
                    assert(d1[pixel_index(width, x, y)] == td[
                        primary_index as int].unwrap()@[(cl[i].tile.height - 1 - (y
                        - cl[i].tile.y)) * cl[i].tile.width + (x - cl[i].tile.x)]);
                    assert(d2[pixel_index(width, x, y)] == td[
                        primary_index as int].unwrap()@[(cl[i].tile.height - 1 - (y
                        - cl[i].tile.y)) * cl[i].tile.width + (x - cl[i].tile.x)]);
                },
                _ => {
                    assert(d1[pixel_index(width, x, y)] == td[i].unwrap()@[(y - cl[i].tile.y)
                        * cl[i].tile.width + (x - cl[i].tile.x)]);
                    assert(d2[pixel_index(width, x, y)] == td[i].unwrap()@[(y - cl[i].tile.y)
                        * cl[i].tile.width + (x - cl[i].tile.x)]);
                },
            }
        }
    }
    assert(d1 =~= d2);
}

} // verus!
