//! Sparse adaptive anti-aliasing: boundary detection and per-boundary-pixel
//! sub-sample storage, with the pan-reuse shift.

use vstd::prelude::*;

use crate::iteration::IterationResult;
use crate::iteration_buffer::{lemma_pixel_index, pixel_index, IterationBuffer};

verus! {

/// The pixel `(x, y)` has a neighbour at offset `(ddx, ddy)` whose
/// iteration class differs from its own.
pub open spec fn neighbor_differs(
    data: Seq<IterationResult>,
    width: int,
    height: int,
    x: int,
    y: int,
    ddx: int,
    ddy: int,
) -> bool {
    &&& -1 <= ddx <= 1
    &&& -1 <= ddy <= 1
    &&& !(ddx == 0 && ddy == 0)
    &&& 0 <= x + ddx < width
    &&& 0 <= y + ddy < height
    &&& data[pixel_index(width, x + ddx, y + ddy)].spec_class() != data[pixel_index(
        width,
        x,
        y,
    )].spec_class()
}

/// The pixel `(x, y)` sits on a class boundary: at least one of its up to
/// eight in-frame neighbours has a different iteration class.
pub open spec fn is_boundary(
    data: Seq<IterationResult>,
    width: int,
    height: int,
    x: int,
    y: int,
) -> bool {
    exists|ddx: int, ddy: int| #[trigger] neighbor_differs(data, width, height, x, y, ddx, ddy)
}

/// The boundary mask of a frame, row-major.
pub open spec fn boundary_mask(data: Seq<IterationResult>, width: int, height: int) -> Seq<bool> {
    Seq::new((width * height) as nat, |i: int| is_boundary(data, width, height, i % width, i / width))
}

/// Number of set entries in a mask.
pub open spec fn count_true(s: Seq<bool>) -> int
    decreases s.len(),
{
    if s.len() == 0 {
        0
    } else {
        count_true(s.drop_last()) + if s.last() {
            1int
        } else {
            0int
        }
    }
}

/// Counting one more prefix element adds that element's contribution.
proof fn lemma_count_true_take_step(s: Seq<bool>, i: int)
    requires
        0 <= i < s.len(),
    ensures
        count_true(s.take(i + 1)) == count_true(s.take(i)) + if s[i] {
            1int
        } else {
            0int
        },
{
    assert(s.take(i + 1).drop_last() =~= s.take(i));
    assert(s.take(i + 1).last() == s[i]);
}

/// The whole mask is its own full prefix.
proof fn lemma_count_true_take_all(s: Seq<bool>)
    ensures
        count_true(s.take(s.len() as int)) == count_true(s),
{
    assert(s.take(s.len() as int) =~= s);
}

/// A prefix never counts more than what a set entry later contributes:
/// the count is monotone in the prefix length.
proof fn lemma_count_true_bounds(s: Seq<bool>, i: int)
    requires
        0 <= i <= s.len(),
    ensures
        0 <= count_true(s.take(i)) <= i,
    decreases i,
{
    if i > 0 {
        lemma_count_true_bounds(s, i - 1);
        lemma_count_true_take_step(s, i - 1);
    } else {
        assert(s.take(0).len() == 0);
    }
}

/// Identify pixels whose iteration class differs from at least one of
/// their up to eight neighbours.  These are the pixels that benefit from
/// supersampling.
pub fn detect_boundaries(iter_buf: &IterationBuffer) -> (mask: Vec<bool>)
    requires
        iter_buf.wf(),
    ensures
        mask@ == boundary_mask(
            iter_buf.data@,
            iter_buf.width as int,
            iter_buf.height as int,
        ),
{
    let w = iter_buf.width;
    let h = iter_buf.height;
    let total = iter_buf.data.len();
    let ghost wi = w as int;
    let ghost hi = h as int;
    let ghost target = boundary_mask(iter_buf.data@, wi, hi);
    let mut mask: Vec<bool> = Vec::new();
    let mut y: u32 = 0;
    while y < h
        invariant
            iter_buf.wf(),
            wi == iter_buf.width as int,
            hi == iter_buf.height as int,
            w == iter_buf.width,
            h == iter_buf.height,
            target == boundary_mask(iter_buf.data@, wi, hi),
            total == wi * hi,
            0 <= y <= h,
            mask@.len() == y * wi,
            forall|i: int| 0 <= i < mask@.len() ==> mask@[i] == target[i],
        decreases h - y,
    {
        let mut x: u32 = 0;
        while x < w
            invariant
                iter_buf.wf(),
                wi == iter_buf.width as int,
                hi == iter_buf.height as int,
                w == iter_buf.width,
                h == iter_buf.height,
                target == boundary_mask(iter_buf.data@, wi, hi),
                total == wi * hi,
                0 <= y < h,
                0 <= x <= w,
                mask@.len() == y * wi + x,
                forall|i: int| 0 <= i < mask@.len() ==> mask@[i] == target[i],
            decreases w - x,
        {
            proof {
                lemma_pixel_index(wi, x as int, y as int);
                assert((y as int) * wi + x < hi * wi) by (nonlinear_arith)
                    requires
                        0 <= x < wi,
                        0 <= y < hi,
                ;
                assert(hi * wi == wi * hi) by (nonlinear_arith);
            }
            let idx: usize = (y as usize) * (w as usize) + (x as usize);
            let class = iter_buf.data[idx].class();
            let mut found = false;
            let mut ddy: i64 = -1;
            while ddy <= 1
                invariant
                    iter_buf.wf(),
                    wi == iter_buf.width as int,
                    hi == iter_buf.height as int,
                    w == iter_buf.width,
                    h == iter_buf.height,
                    0 <= y < h,
                    0 <= x < w,
                    total == wi * hi,
                    idx == pixel_index(wi, x as int, y as int),
                    0 <= idx < iter_buf.data@.len(),
                    class == iter_buf.data@[idx as int].spec_class(),
                    -1 <= ddy <= 2,
                    found ==> is_boundary(iter_buf.data@, wi, hi, x as int, y as int),
                    !found ==> forall|ax: int, ay: int|
                        ay < ddy ==> !neighbor_differs(
                            iter_buf.data@,
                            wi,
                            hi,
                            x as int,
                            y as int,
                            ax,
                            ay,
                        ),
                decreases 2 - ddy,
            {
                let mut ddx: i64 = -1;
                while ddx <= 1
                    invariant
                        iter_buf.wf(),
                        wi == iter_buf.width as int,
                        hi == iter_buf.height as int,
                        w == iter_buf.width,
                        h == iter_buf.height,
                        0 <= y < h,
                        0 <= x < w,
                        total == wi * hi,
                        idx == pixel_index(wi, x as int, y as int),
                        0 <= idx < iter_buf.data@.len(),
                        class == iter_buf.data@[idx as int].spec_class(),
                        -1 <= ddy <= 1,
                        -1 <= ddx <= 2,
                        found ==> is_boundary(iter_buf.data@, wi, hi, x as int, y as int),
                        !found ==> forall|ax: int, ay: int|
                            ay < ddy || (ay == ddy && ax < ddx) ==> !neighbor_differs(
                                iter_buf.data@,
                                wi,
                                hi,
                                x as int,
                                y as int,
                                ax,
                                ay,
                            ),
                    decreases 2 - ddx,
                {
                    if !(ddx == 0 && ddy == 0) {
                        let nx: i64 = (x as i64) + ddx;
                        let ny: i64 = (y as i64) + ddy;
                        if 0 <= nx && nx < w as i64 && 0 <= ny && ny < h as i64 {
                            proof {
                                lemma_pixel_index(wi, nx as int, ny as int);
                                assert((ny as int) * wi + nx < hi * wi) by (nonlinear_arith)
                                    requires
                                        0 <= nx < wi,
                                        0 <= ny < hi,
                                ;
                            }
                            let nidx: usize = (ny as usize) * (w as usize) + (nx as usize);
                            if iter_buf.data[nidx].class() != class {
                                found = true;
                                proof {
                                    assert(neighbor_differs(
                                        iter_buf.data@,
                                        wi,
                                        hi,
                                        x as int,
                                        y as int,
                                        ddx as int,
                                        ddy as int,
                                    ));
                                }
                            }
                        }
                    }
                    ddx = ddx + 1;
                }
                ddy = ddy + 1;
            }
            proof {
                if !found {
                    assert forall|ax: int, ay: int|
                        !neighbor_differs(
                            iter_buf.data@,
                            wi,
                            hi,
                            x as int,
                            y as int,
                            ax,
                            ay,
                        ) by {
                        if neighbor_differs(iter_buf.data@, wi, hi, x as int, y as int, ax, ay) {
                            assert(ay < 2);
                        }
                    }
                }
                assert(found == target[idx as int]);
            }
            mask.push(found);
            x = x + 1;
        }
        proof {
            assert((y as int) * wi + wi == (y as int + 1) * wi) by (nonlinear_arith);
        }
        y = y + 1;
    }
    proof {
        if h == 0 {
            assert(wi * hi == hi * wi) by (nonlinear_arith);
        }
        assert(mask@.len() == hi * wi);
        assert(hi * wi == wi * hi) by (nonlinear_arith);
        assert(mask@ =~= target);
    }
    mask
}

/// Number of entries of an offset table that point at sample data (the
/// sentinel `u32::MAX` marks a pixel without samples).
pub open spec fn count_present(s: Seq<u32>) -> int
    decreases s.len(),
{
    if s.len() == 0 {
        0
    } else {
        count_present(s.drop_last()) + if s.last() != u32::MAX {
            1int
        } else {
            0int
        }
    }
}

/// Appending an entry adds its contribution to the count.
proof fn lemma_count_present_push(s: Seq<u32>, v: u32)
    ensures
        count_present(s.push(v)) == count_present(s) + if v != u32::MAX {
            1int
        } else {
            0int
        },
{
    assert(s.push(v).drop_last() =~= s);
}

/// Counting one more prefix entry adds that entry's contribution.
proof fn lemma_count_present_take_step(s: Seq<u32>, i: int)
    requires
        0 <= i < s.len(),
    ensures
        count_present(s.take(i + 1)) == count_present(s.take(i)) + if s[i] != u32::MAX {
            1int
        } else {
            0int
        },
{
    assert(s.take(i + 1).drop_last() =~= s.take(i));
    assert(s.take(i + 1).last() == s[i]);
}

/// The count of a prefix lies between zero and the prefix length.
proof fn lemma_count_present_bounds(s: Seq<u32>, i: int)
    requires
        0 <= i <= s.len(),
    ensures
        0 <= count_present(s.take(i)) <= i,
    decreases i,
{
    if i > 0 {
        lemma_count_present_bounds(s, i - 1);
        lemma_count_present_take_step(s, i - 1);
    } else {
        assert(s.take(0).len() == 0);
    }
}

/// A longer prefix never counts fewer present entries.
proof fn lemma_count_present_mono(s: Seq<u32>, a: int, b: int)
    requires
        0 <= a <= b <= s.len(),
    ensures
        count_present(s.take(a)) <= count_present(s.take(b)),
    decreases b - a,
{
    if a < b {
        lemma_count_present_mono(s, a, b - 1);
        lemma_count_present_take_step(s, b - 1);
    }
}

/// The whole table is its own full prefix.
proof fn lemma_count_present_take_all(s: Seq<u32>)
    ensures
        count_present(s.take(s.len() as int)) == count_present(s),
{
    assert(s.take(s.len() as int) =~= s);
}

/// A longer prefix of a mask never counts fewer set entries.
proof fn lemma_count_true_mono(s: Seq<bool>, a: int, b: int)
    requires
        0 <= a <= b <= s.len(),
    ensures
        count_true(s.take(a)) <= count_true(s.take(b)),
    decreases b - a,
{
    if a < b {
        lemma_count_true_mono(s, a, b - 1);
        lemma_count_true_take_step(s, b - 1);
    }
}

/// Sparse storage for adaptive anti-aliasing sub-pixel samples.
///
/// Only boundary pixels (where the iteration class differs between
/// neighbours) receive extra samples.  Non-boundary pixels use the single
/// sample from the `IterationBuffer`.
#[derive(Debug, Clone)]
pub struct AaSamples {
    pub width: u32,
    pub height: u32,
    pub aa_level: u32,
    pub boundary_count: usize,
    /// Per-pixel offset into `data`.  `u32::MAX` = not supersampled.
    /// Treated as internal: read it through `samples`.
    pub offsets: Vec<u32>,
    /// Flat array of sub-pixel results.  Each supersampled pixel occupies
    /// `aa_level * aa_level` consecutive entries.  Treated as internal.
    pub data: Vec<IterationResult>,
}

impl AaSamples {
    /// One offset per pixel, every live offset pointing at a full group of
    /// `aa_level * aa_level` samples, and exactly as many groups as live
    /// offsets.
    pub open spec fn wf(self) -> bool {
        &&& self.offsets@.len() == self.width * self.height
        &&& 1 <= self.aa_level <= 16
        &&& self.boundary_count == count_present(self.offsets@)
        &&& self.data@.len() == count_present(self.offsets@) * (self.aa_level * self.aa_level)
        &&& self.data@.len() + self.aa_level * self.aa_level <= u32::MAX
        &&& forall|i: int|
            0 <= i < self.offsets@.len() && #[trigger] self.offsets@[i] != u32::MAX
                ==> self.offsets@[i] + self.aa_level * self.aa_level <= self.data@.len()
    }

    /// The pixel `(x, y)` carries sub-pixel samples.
    pub open spec fn has_samples(self, x: int, y: int) -> bool {
        self.offsets@[pixel_index(self.width as int, x, y)] != u32::MAX
    }

    /// Sub-pixel sample `k` of the pixel `(x, y)`.
    pub open spec fn sample_at(self, x: int, y: int, k: int) -> IterationResult {
        self.data@[self.offsets@[pixel_index(self.width as int, x, y)] + k]
    }

    /// The sub-pixel samples of a pixel, or `None` if it was not
    /// supersampled.
    pub fn samples(&self, x: u32, y: u32) -> (r: Option<Vec<IterationResult>>)
        requires
            self.wf(),
            x < self.width,
            y < self.height,
        ensures
            r is Some <==> self.has_samples(x as int, y as int),
            match r {
                Some(v) => {
                    &&& v@.len() == self.aa_level * self.aa_level
                    &&& forall|k: int|
                        0 <= k < v@.len() ==> v@[k] == self.sample_at(x as int, y as int, k)
                },
                None => true,
            },
    {
        let w = self.width;
        let total = self.offsets.len();
        let ghost wi = w as int;
        proof {
            lemma_pixel_index(wi, x as int, y as int);
            assert((y as int) * wi + x < (self.height as int) * wi) by (nonlinear_arith)
                requires
                    0 <= x < wi,
                    0 <= y < self.height as int,
            ;
            assert((self.height as int) * wi == wi * (self.height as int)) by (nonlinear_arith);
        }
        let idx: usize = (y as usize) * (w as usize) + (x as usize);
        let off = self.offsets[idx];
        if off == u32::MAX {
            return None;
        }
        let n: usize = (self.aa_level as usize) * (self.aa_level as usize);
        let mut v: Vec<IterationResult> = Vec::new();
        let mut k: usize = 0;
        while k < n
            invariant
                self.wf(),
                wi == self.width as int,
                x < self.width,
                y < self.height,
                idx == pixel_index(wi, x as int, y as int),
                0 <= idx < self.offsets@.len(),
                off == self.offsets@[idx as int],
                off != u32::MAX,
                n == self.aa_level * self.aa_level,
                0 <= k <= n,
                v@.len() == k,
                forall|j: int| 0 <= j < k ==> v@[j] == self.sample_at(x as int, y as int, j),
            decreases n - k,
        {
            v.push(self.data[(off as usize) + k]);
            k = k + 1;
        }
        Some(v)
    }
}

/// Assemble the sparse anti-aliasing structure for an already-rendered
/// frame.
///
/// `mask` is the frame's boundary mask (from [`detect_boundaries`]) and
/// `flat_samples` holds, for each boundary pixel in row-major order, its
/// `aa_level * aa_level` sub-pixel results, flattened.  The caller passes
/// `cancelled` after re-checking its cancellation generation.
///
/// Returns `None` exactly when the frame has no boundary pixels (a uniform
/// frame needs no anti-aliasing) or the pass was cancelled.
pub fn compute_aa(
    iter_buf: &IterationBuffer,
    aa_level: u32,
    mask: &Vec<bool>,
    flat_samples: &Vec<IterationResult>,
    cancelled: bool,
) -> (r: Option<AaSamples>)
    requires
        iter_buf.wf(),
        mask@ == boundary_mask(iter_buf.data@, iter_buf.width as int, iter_buf.height as int),
        1 <= aa_level <= 16,
        flat_samples@.len() == count_true(mask@) * (aa_level * aa_level),
        flat_samples@.len() + aa_level * aa_level <= u32::MAX,
    ensures
        r is Some <==> (!cancelled && count_true(mask@) > 0),
        match r {
            Some(aa) => {
                &&& aa.wf()
                &&& aa.width == iter_buf.width
                &&& aa.height == iter_buf.height
                &&& aa.aa_level == aa_level
                &&& aa.boundary_count == count_true(mask@)
                &&& forall|x: int, y: int|
                    0 <= x < iter_buf.width && 0 <= y < iter_buf.height ==> (#[trigger] aa.has_samples(
                        x,
                        y,
                    ) <==> mask@[pixel_index(iter_buf.width as int, x, y)])
                &&& forall|x: int, y: int, k: int|
                    0 <= x < iter_buf.width && 0 <= y < iter_buf.height && mask@[pixel_index(
                        iter_buf.width as int,
                        x,
                        y,
                    )] && 0 <= k < aa_level * aa_level ==> #[trigger] aa.sample_at(x, y, k)
                        == flat_samples@[count_true(
                        mask@.take(pixel_index(iter_buf.width as int, x, y)),
                    ) * (aa_level * aa_level) + k]
            },
            None => true,
        },
{
    let ghost wi = iter_buf.width as int;
    let ghost hi = iter_buf.height as int;
    let pixel_count = mask.len();
    let n: usize = (aa_level as usize) * (aa_level as usize);

    // count the boundary pixels
    let mut boundary_count: usize = 0;
    let mut i: usize = 0;
    while i < pixel_count
        invariant
            pixel_count == mask@.len(),
            0 <= i <= pixel_count,
            boundary_count == count_true(mask@.take(i as int)),
        decreases pixel_count - i,
    {
        proof {
            lemma_count_true_take_step(mask@, i as int);
            lemma_count_true_bounds(mask@, i as int + 1);
        }
        if mask[i] {
            boundary_count = boundary_count + 1;
        }
        i = i + 1;
    }
    proof {
        lemma_count_true_take_all(mask@);
    }

    if boundary_count == 0 {
        return None;
    }
    if cancelled {
        return None;
    }

    // build the offset table: each boundary pixel gets the next group of
    // n sample slots, in row-major order
    let mut offsets: Vec<u32> = Vec::new();
    let mut rank: usize = 0;
    let mut i: usize = 0;
    while i < pixel_count
        invariant
            pixel_count == mask@.len(),
            n == aa_level * aa_level,
            1 <= aa_level <= 16,
            flat_samples@.len() == count_true(mask@) * n,
            flat_samples@.len() + n <= u32::MAX,
            0 <= i <= pixel_count,
            rank == count_true(mask@.take(i as int)),
            offsets@.len() == i,
            count_present(offsets@) == rank,
            forall|j: int|
                0 <= j < i ==> #[trigger] offsets@[j] == if mask@[j] {
                    (count_true(mask@.take(j)) * n) as u32
                } else {
                    u32::MAX
                },
            forall|j: int|
                0 <= j < i && #[trigger] offsets@[j] != u32::MAX ==> offsets@[j] + n
                    <= flat_samples@.len(),
        decreases pixel_count - i,
    {
        proof {
            lemma_count_true_take_step(mask@, i as int);
            lemma_count_true_bounds(mask@, i as int + 1);
        }
        if mask[i] {
            proof {
                lemma_count_true_mono(mask@, i as int + 1, mask@.len() as int);
                lemma_count_true_take_all(mask@);
                assert((rank as int) * n + n <= count_true(mask@) * n) by (nonlinear_arith)
                    requires
                        rank as int + 1 <= count_true(mask@),
                        n >= 0,
                ;
                assert(0 <= (rank as int) * n) by (nonlinear_arith)
                    requires
                        rank >= 0,
                        n >= 0,
                ;
                assert(1 <= n as int) by (nonlinear_arith)
                    requires
                        n == (aa_level as int) * (aa_level as int),
                        1 <= aa_level as int,
                ;
                assert((rank as int) * n < u32::MAX);
            }
            let off: u32 = (rank * n) as u32;
            proof {
                lemma_count_present_push(offsets@, off);
            }
            offsets.push(off);
            rank = rank + 1;
        } else {
            proof {
                lemma_count_present_push(offsets@, u32::MAX);
            }
            offsets.push(u32::MAX);
        }
        i = i + 1;
    }
    proof {
        lemma_count_true_take_all(mask@);
    }

    // the flat sample array is already in rank order
    let mut data: Vec<IterationResult> = Vec::new();
    let mut i: usize = 0;
    let sample_len = flat_samples.len();
    while i < sample_len
        invariant
            sample_len == flat_samples@.len(),
            0 <= i <= sample_len,
            data@.len() == i,
            forall|j: int| 0 <= j < i ==> data@[j] == flat_samples@[j],
        decreases sample_len - i,
    {
        data.push(flat_samples[i]);
        i = i + 1;
    }
    proof {
        assert(data@ =~= flat_samples@);
    }

    let aa = AaSamples {
        width: iter_buf.width,
        height: iter_buf.height,
        aa_level,
        boundary_count,
        offsets,
        data,
    };
    proof {
        assert(aa.offsets@.len() == wi * hi) by {
            assert(mask@.len() == wi * hi);
        }
        assert forall|x: int, y: int| 0 <= x < iter_buf.width && 0 <= y < iter_buf.height implies (
        #[trigger] aa.has_samples(x, y) <==> mask@[pixel_index(wi, x, y)]) by {
            lemma_pixel_index(wi, x, y);
            assert(pixel_index(wi, x, y) < hi * wi) by (nonlinear_arith)
                requires
                    pixel_index(wi, x, y) == y * wi + x,
                    0 <= x < wi,
                    0 <= y < hi,
            ;
            assert(hi * wi == wi * hi) by (nonlinear_arith);
            let pi = pixel_index(wi, x, y);
            if mask@[pi] {
                lemma_count_true_bounds(mask@, pi);
                lemma_count_true_mono(mask@, pi, mask@.len() as int);
                lemma_count_true_take_all(mask@);
                assert(count_true(mask@.take(pi)) * (n as int) <= count_true(mask@) * (n as int))
                    by (nonlinear_arith)
                    requires
                        count_true(mask@.take(pi)) <= count_true(mask@),
                        n >= 0,
                ;
                assert(0 <= count_true(mask@.take(pi)) * (n as int)) by (nonlinear_arith)
                    requires
                        0 <= count_true(mask@.take(pi)),
                        n >= 0,
                ;
                assert(aa.offsets@[pi] != u32::MAX);
            }
        }
        assert forall|x: int, y: int, k: int|
            0 <= x < iter_buf.width && 0 <= y < iter_buf.height && mask@[pixel_index(wi, x, y)] && 0
                <= k < aa_level * aa_level implies #[trigger] aa.sample_at(x, y, k)
            == flat_samples@[count_true(mask@.take(pixel_index(wi, x, y))) * (aa_level * aa_level)
            + k] by {
            lemma_pixel_index(wi, x, y);
            assert(pixel_index(wi, x, y) < hi * wi) by (nonlinear_arith)
                requires
                    pixel_index(wi, x, y) == y * wi + x,
                    0 <= x < wi,
                    0 <= y < hi,
            ;
            assert(hi * wi == wi * hi) by (nonlinear_arith);
            let pi = pixel_index(wi, x, y);
            lemma_count_true_bounds(mask@, pi);
            lemma_count_true_mono(mask@, pi, mask@.len() as int);
            lemma_count_true_take_all(mask@);
            assert(count_true(mask@.take(pi)) * (n as int) <= count_true(mask@) * (n as int))
                by (nonlinear_arith)
                requires
                    count_true(mask@.take(pi)) <= count_true(mask@),
                    n >= 0,
            ;
            assert(0 <= count_true(mask@.take(pi)) * (n as int)) by (nonlinear_arith)
                requires
                    0 <= count_true(mask@.take(pi)),
                    n >= 0,
            ;
            assert(aa.offsets@[pi] == count_true(mask@.take(pi)) * (n as int));
        }
    }
    Some(aa)
}

/// Clamp an index to the range `[0, len]`.
spec fn clamp_index(v: int, len: int) -> int {
    if v < 0 {
        0
    } else if v > len {
        len
    } else {
        v
    }
}

impl AaSamples {
    /// Shift the anti-aliasing data by a pixel offset, keeping the sample
    /// groups of pixels that stay within the frame and discarding those
    /// that fall outside.  Newly exposed pixels carry no samples.
    ///
    /// Uses the same coordinate convention as `IterationBuffer::shift`:
    /// `dx > 0` = content moves right, `dy > 0` = content moves down.
    pub fn shift(&mut self, dx: i32, dy: i32)
        requires
            old(self).wf(),
        ensures
            final(self).wf(),
            final(self).width == old(self).width,
            final(self).height == old(self).height,
            final(self).aa_level == old(self).aa_level,
            forall|x: int, y: int|
                0 <= x < old(self).width && 0 <= y < old(self).height
                    ==> (#[trigger] final(self).has_samples(x, y) <==> (0 <= x - dx < old(
                    self).width && 0 <= y - dy < old(self).height && old(self).has_samples(
                    x - dx, y - dy))),
            forall|x: int, y: int, k: int|
                0 <= x < old(self).width && 0 <= y < old(self).height && final(self).has_samples(
                    x,
                    y,
                ) && 0 <= k < old(self).aa_level * old(self).aa_level
                    ==> #[trigger] final(self).sample_at(x, y, k) == old(self).sample_at(
                    x - dx, y - dy, k),
    {
        let w = self.width;
        let h = self.height;
        let n: usize = (self.aa_level as usize) * (self.aa_level as usize);
        let pc = self.offsets.len();
        let dlen = self.data.len();
        let ghost wi = w as int;
        let ghost hi = h as int;
        let ghost ni = n as int;
        let ghost dxi = dx as int;
        let ghost dyi = dy as int;
        let ghost shiftv = dyi * wi + dxi;
        let ghost pci = pc as int;
        let ghost total_present = count_present(self.offsets@);

        proof {
            lemma_count_present_take_all(self.offsets@);
            lemma_count_present_bounds(self.offsets@, clamp_index(0 - shiftv, pci));
        }

        let mut new_offsets: Vec<u32> = Vec::new();
        let mut new_data: Vec<IterationResult> = Vec::new();
        let mut survivors: usize = 0;
        let mut y: u32 = 0;
        while y < h
            invariant
                self.wf(),
                self == old(self),
                w == self.width,
                h == self.height,
                n == self.aa_level * self.aa_level,
                pc == self.offsets@.len(),
                dlen == self.data@.len(),
                wi == w as int,
                hi == h as int,
                ni == n as int,
                dxi == dx as int,
                dyi == dy as int,
                shiftv == dyi * wi + dxi,
                pci == pc as int,
                total_present == count_present(self.offsets@),
                total_present == count_present(self.offsets@.take(pci)),
                0 <= y <= h,
                new_offsets@.len() == y * wi,
                survivors == count_present(new_offsets@),
                new_data@.len() == count_present(new_offsets@) * ni,
                count_present(new_offsets@) <= count_present(
                    self.offsets@.take(clamp_index(y * wi - shiftv, pci)),
                ),
                forall|p: int|
                    0 <= p < new_offsets@.len() ==> shifted_entry_ok(
                        #[trigger] new_offsets@[p],
                        p,
                        new_data@,
                        *self,
                        dxi,
                        dyi,
                    ),
            decreases h - y,
        {
            let mut x: u32 = 0;
            while x < w
                invariant
                    self.wf(),
                    self == old(self),
                    w == self.width,
                    h == self.height,
                    n == self.aa_level * self.aa_level,
                    pc == self.offsets@.len(),
                    dlen == self.data@.len(),
                    wi == w as int,
                    hi == h as int,
                    ni == n as int,
                    dxi == dx as int,
                    dyi == dy as int,
                    shiftv == dyi * wi + dxi,
                    pci == pc as int,
                    total_present == count_present(self.offsets@),
                    total_present == count_present(self.offsets@.take(pci)),
                    0 <= y < h,
                    0 <= x <= w,
                    new_offsets@.len() == y * wi + x,
                    survivors == count_present(new_offsets@),
                    new_data@.len() == count_present(new_offsets@) * ni,
                    count_present(new_offsets@) <= count_present(
                        self.offsets@.take(clamp_index(y * wi + x - shiftv, pci)),
                    ),
                    forall|p: int|
                        0 <= p < new_offsets@.len() ==> shifted_entry_ok(
                            #[trigger] new_offsets@[p],
                            p,
                            new_data@,
                            *self,
                            dxi,
                            dyi,
                        ),
                decreases w - x,
            {
                let ghost j = (y as int) * wi + (x as int);
                let ghost pre_offsets = new_offsets@;
                let ghost pre_data = new_data@;
                proof {
                    lemma_pixel_index(wi, x as int, y as int);
                }
                let sx: i64 = (x as i64) - (dx as i64);
                let sy: i64 = (y as i64) - (dy as i64);
                let mut pushed_off: u32 = u32::MAX;
                if 0 <= sx && sx < w as i64 && 0 <= sy && sy < h as i64 {
                    proof {
                        lemma_pixel_index(wi, sx as int, sy as int);
                        assert((sy as int) * wi + sx < hi * wi) by (nonlinear_arith)
                            requires
                                0 <= sx < wi,
                                0 <= sy < hi,
                        ;
                        assert(hi * wi == wi * hi) by (nonlinear_arith);
                        assert((sy as int) * wi + (sx as int) == j - shiftv) by (nonlinear_arith)
                            requires
                                sy == (y as int) - dyi,
                                sx == (x as int) - dxi,
                                j == (y as int) * wi + (x as int),
                                shiftv == dyi * wi + dxi,
                        ;
                    }
                    let src_idx: usize = (sy as usize) * (w as usize) + (sx as usize);
                    let off = self.offsets[src_idx];
                    if off != u32::MAX {
                        // the source pixel survives: append its group
                        proof {
                            let src = src_idx as int;
                            lemma_count_present_mono(
                                self.offsets@,
                                clamp_index(j - shiftv, pci),
                                src,
                            );
                            lemma_count_present_take_step(self.offsets@, src);
                            lemma_count_present_mono(self.offsets@, src + 1, pci);
                            assert(count_present(new_offsets@) + 1 <= total_present);
                            assert((count_present(new_offsets@) + 1) * ni <= total_present * ni)
                                by (nonlinear_arith)
                                requires
                                    count_present(new_offsets@) + 1 <= total_present,
                                    ni >= 0,
                            ;
                            assert(total_present * ni == dlen);
                            assert((count_present(new_offsets@) + 1) * ni == count_present(
                                new_offsets@,
                            ) * ni + ni) by (nonlinear_arith);
                            assert(1 <= ni) by (nonlinear_arith)
                                requires
                                    ni == (self.aa_level as int) * (self.aa_level as int),
                                    1 <= self.aa_level as int,
                            ;
                            assert(new_data@.len() + ni <= dlen);
                            assert(new_data@.len() < u32::MAX);
                        }
                        let noff: u32 = new_data.len() as u32;
                        pushed_off = noff;
                        let mut k: usize = 0;
                        while k < n
                            invariant
                                self.wf(),
                                self == old(self),
                                ni == n as int,
                                dlen == self.data@.len(),
                                0 <= k <= n,
                                off != u32::MAX,
                                0 <= src_idx < self.offsets@.len(),
                                off == self.offsets@[src_idx as int],
                                off + ni <= dlen,
                                noff == pre_data.len(),
                                new_data@ == pre_data + self.data@.subrange(
                                    off as int,
                                    off + k,
                                ),
                            decreases n - k,
                        {
                            let ghost before = new_data@;
                            new_data.push(self.data[(off as usize) + k]);
                            proof {
                                assert(new_data@ =~= pre_data + self.data@.subrange(
                                    off as int,
                                    off + k + 1,
                                ));
                            }
                            k = k + 1;
                        }
                        proof {
                            lemma_count_present_push(pre_offsets, noff);
                            assert(new_data@.subrange(noff as int, noff + ni)
                                =~= self.data@.subrange(off as int, off + ni));
                        }
                        new_offsets.push(noff);
                        survivors = survivors + 1;
                    } else {
                        proof {
                            lemma_count_present_push(pre_offsets, u32::MAX);
                        }
                        new_offsets.push(u32::MAX);
                    }
                } else {
                    proof {
                        lemma_count_present_push(pre_offsets, u32::MAX);
                    }
                    new_offsets.push(u32::MAX);
                }
                proof {
                    // count bound moves to the next pixel
                    let c0 = clamp_index(j - shiftv, pci);
                    let c1 = clamp_index(j + 1 - shiftv, pci);
                    if pushed_off == u32::MAX {
                        lemma_count_present_mono(self.offsets@, c0, c1);
                    } else {
                        lemma_count_present_take_step(self.offsets@, j - shiftv);
                        lemma_count_present_mono(self.offsets@, j - shiftv + 1, c1);
                    }
                    // every previously recorded pixel still checks out, and
                    // so does the one just written
                    assert forall|p: int| 0 <= p < new_offsets@.len() implies shifted_entry_ok(
                        #[trigger] new_offsets@[p],
                        p,
                        new_data@,
                        *self,
                        dxi,
                        dyi,
                    ) by {
                        if p < j {
                            assert(new_offsets@[p] == pre_offsets[p]);
                            assert(shifted_entry_ok(pre_offsets[p], p, pre_data, *self, dxi, dyi));
                            if pre_offsets[p] != u32::MAX {
                                assert(new_data@.subrange(
                                    pre_offsets[p] as int,
                                    pre_offsets[p] + ni,
                                ) =~= pre_data.subrange(pre_offsets[p] as int, pre_offsets[p] + ni));
                            }
                        } else {
                            assert(p == j);
                            assert(new_offsets@[p] == pushed_off);
                            if pushed_off != u32::MAX {
                                assert(new_data@.subrange(pushed_off as int, pushed_off + ni)
                                    =~= self.data@.subrange(
                                    self.offsets@[j - shiftv] as int,
                                    self.offsets@[j - shiftv] + ni,
                                ));
                            }
                        }
                    }
                }
                x = x + 1;
            }
            proof {
                assert((y as int) * wi + wi == (y as int + 1) * wi) by (nonlinear_arith);
            }
            y = y + 1;
        }
        proof {
            if h == 0 {
                assert(wi * hi == hi * wi) by (nonlinear_arith);
            }
            assert(new_offsets@.len() == hi * wi);
            assert(hi * wi == wi * hi) by (nonlinear_arith);
        }
        proof {
            let cnt = count_present(new_offsets@);
            lemma_count_present_mono(
                self.offsets@,
                clamp_index(hi * wi - shiftv, pci),
                pci,
            );
            lemma_count_present_take_all(self.offsets@);
            assert(cnt <= total_present);
            assert(cnt * ni <= total_present * ni) by (nonlinear_arith)
                requires
                    cnt <= total_present,
                    ni >= 0,
            ;
            assert(new_data@.len() + ni <= u32::MAX);
            assert forall|i: int|
                0 <= i < new_offsets@.len() && #[trigger] new_offsets@[i] != u32::MAX implies
                new_offsets@[i] + ni <= new_data@.len() by {
                assert(shifted_entry_ok(new_offsets@[i], i, new_data@, *self, dxi, dyi));
            }
        }
        self.offsets = new_offsets;
        self.data = new_data;
        self.boundary_count = survivors;
        proof {
            assert forall|x: int, y: int|
                0 <= x < old(self).width && 0 <= y < old(self).height implies (#[trigger] self
                .has_samples(x, y) <==> (0 <= x - dxi < old(self).width && 0 <= y - dyi < old(
                self).height && old(self).has_samples(x - dxi, y - dyi))) by {
                lemma_pixel_index(wi, x, y);
                assert(pixel_index(wi, x, y) < hi * wi) by (nonlinear_arith)
                    requires
                        pixel_index(wi, x, y) == y * wi + x,
                        0 <= x < wi,
                        0 <= y < hi,
                ;
                let p = pixel_index(wi, x, y);
                assert(shifted_entry_ok(self.offsets@[p], p, self.data@, *old(self), dxi, dyi));
                if 0 <= x - dxi < wi && 0 <= y - dyi < hi {
                    lemma_pixel_index(wi, x - dxi, y - dyi);
                }
            }
            assert forall|x: int, y: int, k: int|
                0 <= x < old(self).width && 0 <= y < old(self).height && self.has_samples(x, y) && 0
                    <= k < old(self).aa_level * old(self).aa_level implies #[trigger] self.sample_at(
                x,
                y,
                k,
            ) == old(self).sample_at(x - dxi, y - dyi, k) by {
                lemma_pixel_index(wi, x, y);
                assert(pixel_index(wi, x, y) < hi * wi) by (nonlinear_arith)
                    requires
                        pixel_index(wi, x, y) == y * wi + x,
                        0 <= x < wi,
                        0 <= y < hi,
                ;
                let p = pixel_index(wi, x, y);
                assert(shifted_entry_ok(self.offsets@[p], p, self.data@, *old(self), dxi, dyi));
                if 0 <= x - dxi < wi && 0 <= y - dyi < hi {
                    lemma_pixel_index(wi, x - dxi, y - dyi);
                    let src = pixel_index(wi, x - dxi, y - dyi);
                    assert(src < hi * wi) by (nonlinear_arith)
                        requires
                            src == (y - dyi) * wi + (x - dxi),
                            0 <= x - dxi < wi,
                            0 <= y - dyi < hi,
                    ;
                    let noff = self.offsets@[p];
                    let ooff = old(self).offsets@[src];
                    assert(ooff != u32::MAX);
                    assert(ooff + ni <= old(self).data@.len());
                    assert(self.data@.subrange(noff as int, noff + ni)[k] == self.data@[noff + k]);
                    assert(old(self).data@.subrange(ooff as int, ooff + ni)[k] == old(
                        self,
                    ).data@[ooff + k]);
                }
            }
        }
    }
}

/// What the shift records for destination pixel `p`: the entry is live
/// exactly when the source pixel is in frame and has samples, and a live
/// entry points at a copy of the source pixel's sample group.
spec fn shifted_entry_ok(
    entry: u32,
    p: int,
    new_data: Seq<IterationResult>,
    orig: AaSamples,
    dx: int,
    dy: int,
) -> bool {
    let wi = orig.width as int;
    let hi = orig.height as int;
    let ni = (orig.aa_level * orig.aa_level) as int;
    let px = p % wi;
    let py = p / wi;
    let valid = 0 <= px - dx < wi && 0 <= py - dy < hi;
    let src = pixel_index(wi, px - dx, py - dy);
    &&& (entry != u32::MAX <==> (valid && orig.offsets@[src] != u32::MAX))
    &&& (entry != u32::MAX ==> entry + ni <= new_data.len() && new_data.subrange(
        entry as int,
        entry + ni,
    ) == orig.data@.subrange(orig.offsets@[src] as int, orig.offsets@[src] + ni))
}

} // verus!
