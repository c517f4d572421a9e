//! MIP maps: a brick for each node summarising the colors below it.
use vstd::prelude::*;
use crate::spatial::{
    Cube, V3c, cube_contains, cube_fits, cube_splittable, child_cube, sectant_of, brick_index_of,
    lemma_sectant_of, lemma_child_cube, flat_index, axis_cell, BOX_NODE_DIMENSION, cube_within,
    lemma_child_within, lemma_within_one_child,
};
use crate::boxtree::types::{
    Albedo, BoxTree, BrickData, MIPResamplingMethods, NodeChildren, NodeContent, EMPTY_MARKER, EMPTY_INDEX,
    color_distance_sq,
};
use crate::boxtree::{
    pow4, pix_valid, pix_parts, pix_color_index, brick_valid, brick_voxel, lemma_level_size, lemma_pix_empty,
    lemma_pix_visual, pix_visual, pix_visual_spec,
};
use crate::boxtree::resample::{resample, is_resample_result, max_stream, Resampler};
use crate::boxtree::types::{BoxTreeEntry, MIPMapStrategy, StrategyUpdater, entry_parts};
use crate::spatial::OOB_SECTANT;
use crate::boxtree::update::{filled_u32, vec_take};

verus! {

/// `floor(log2(n))`, 0 for 0
pub open spec fn floor_log2(n: nat) -> nat
    decreases n,
{
    if n < 2 {
        0
    } else {
        1 + floor_log2(n / 2)
    }
}

proof fn lemma_floor_log2_bound(n: nat, k: nat)
    requires
        k >= 1,
        n < crate::boxtree::power(2, k),
    ensures
        floor_log2(n) < k,
    decreases n,
{
    if n >= 2 {
        assert(k >= 2) by {
            if k == 1 {
                assert(crate::boxtree::power(2, 0) == 1);
                assert(crate::boxtree::power(2, 1) == 2);
            }
        }
        assert(n / 2 < crate::boxtree::power(2, (k - 1) as nat));
        lemma_floor_log2_bound(n / 2, (k - 1) as nat);
    }
}

/// `floor(log2(n))`, 0 for 0
pub fn floor_log2_exec(n: u32) -> (r: usize)
    ensures
        r == floor_log2(n as nat),
{
    let mut m = n;
    let mut r: usize = 0;
    proof {
        reveal_with_fuel(crate::boxtree::power, 33);
        assert(crate::boxtree::power(2, 32) == 0x1_0000_0000nat);
        lemma_floor_log2_bound(n as nat, 32);
    }
    while m >= 2
        invariant
            floor_log2(n as nat) == r + floor_log2(m as nat),
            floor_log2(n as nat) < 32,
            m <= n,
        decreases m,
    {
        m = m / 2;
        r = r + 1;
    }
    r
}

impl<T> BoxTree<T> {
    /// The palette index a node's MIP map holds at a flat cell index
    pub closed spec fn mip_entry(&self, key: int, f: int) -> u32 {
        match self.node_mips@[key] {
            BrickData::Empty => EMPTY_MARKER,
            BrickData::Solid(v) => v,
            BrickData::Parted(b) => if 0 <= f < b@.len() { b@[f] } else { EMPTY_MARKER },
        }
    }

    /// The color a palette index refers to, if any
    pub closed spec fn color_of(&self, pix: u32) -> Option<Albedo> {
        pix_parts(pix, self.voxel_color_palette@, self.voxel_data_palette@).0
    }

    /// The color of the voxel at a position, looked up from the node covering `bounds`;
    /// nothing outside of it
    pub closed spec fn voxel_color(&self, key: int, bounds: Cube, p: V3c<u32>) -> Option<Albedo> {
        if cube_contains(bounds, p) {
            self.color_of(self.node_voxel(key, bounds, p))
        } else {
            None
        }
    }

    /// The colors of the voxels in the cube of edge `size` starting at `start`, x running
    /// slowest; positions beyond the `u32` range have no color
    pub closed spec fn voxel_block(&self, key: int, bounds: Cube, start: V3c<u32>, size: int) -> Seq<Option<Albedo>> {
        Seq::new(
            (size * (size * size)) as nat,
            |i: int|
                {
                    let x = start.x + i / (size * size);
                    let y = start.y + (i / size) % size;
                    let z = start.z + i % size;
                    if x <= u32::MAX && y <= u32::MAX && z <= u32::MAX {
                        self.voxel_color(key, bounds, V3c { x: x as u32, y: y as u32, z: z as u32 })
                    } else {
                        None
                    }
                },
        )
    }

    /// The color at a cell of the grid that the MIP maps of the children of a node form side
    /// by side, `4 * brick_dim` cells along each axis; nothing where there is no child
    pub closed spec fn child_mip_color(&self, key: int, qx: int, qy: int, qz: int) -> Option<Albedo> {
        let dim = self.brick_dim as int;
        let c = self.child_key(key, qx / dim + 4 * (qy / dim) + 16 * (qz / dim));
        if 0 <= c < self.nodes@.len() {
            self.color_of(self.mip_voxel(c, qx % dim, qy % dim, qz % dim))
        } else {
            None
        }
    }

    /// The colors of the 4x4x4 cells of that grid starting at `start`, x running slowest
    pub closed spec fn child_mip_block(&self, key: int, start: V3c<u32>) -> Seq<Option<Albedo>> {
        Seq::new(
            64,
            |i: int| self.child_mip_color(key, start.x + i / 16, start.y + (i / 4) % 4, start.z + i % 4),
        )
    }
}

/// Color distances are never negative
pub proof fn lemma_distance_nonneg(a: Albedo, b: Albedo)
    ensures
        color_distance_sq(a, b) >= 0,
{
    let dr: int = a.r - b.r;
    let dg: int = a.g - b.g;
    let db: int = a.b - b.b;
    let da: int = a.a - b.a;
    assert(dr * dr >= 0 && dg * dg >= 0 && db * db >= 0 && da * da >= 0) by (nonlinear_arith);
}

/// The color held by a palette index matches the resampled color `c`: it is `c` itself or,
/// with a similarity threshold set, a color closer to `c` than the threshold
pub open spec fn color_matches(held: Option<Albedo>, c: Albedo, thr: Option<u32>) -> bool {
    match held {
        None => false,
        Some(h) => h == c || (thr matches Some(t) && color_distance_sq(c, h) * 1_000_000 < (t * 255) * (t
            * 255)),
    }
}

impl<T> BoxTree<T> {
    /// The MIP level of a node covering `bounds`: log2 of the number of voxels a MIP cell spans
    pub closed spec fn mip_level_of(&self, bounds: Cube) -> usize {
        floor_log2((bounds.size / self.brick_dim) as nat) as usize
    }

    /// The resampling method of the MIP level of a node covering `bounds`
    pub closed spec fn mip_method(&self, bounds: Cube) -> MIPResamplingMethods {
        self.mip_map_strategy.method_at(self.mip_level_of(bounds))
    }

    /// The color similarity threshold of the MIP level of a node covering `bounds`, if set
    pub closed spec fn mip_threshold(&self, bounds: Cube) -> Option<u32> {
        let l = self.mip_level_of(bounds);
        if self.mip_map_strategy.thresholds().contains_key(l) {
            Some(self.mip_map_strategy.thresholds()[l])
        } else {
            None
        }
    }

    /// Updating the MIP map of the node at position `p` resamples a cell: MIP maps are
    /// enabled, the node is a leaf or an internal node, and it takes samples
    pub closed spec fn mip_updates(&self, key: int, bounds: Cube, p: V3c<u32>) -> bool {
        &&& self.mip_map_strategy.spec_enabled()
        &&& (self.nodes@[key] is Leaf || self.nodes@[key] is Internal)
        &&& self.mip_samples(key, bounds, p) is Some
    }

    /// The colors the MIP cell of a node covering position `p` is resampled from; nothing where
    /// the node takes no samples. A leaf samples its voxels; an internal node samples the MIP
    /// maps of its children, or its voxels when its level resamples from the bottom.
    pub closed spec fn mip_samples(&self, key: int, bounds: Cube, p: V3c<u32>) -> Option<Seq<Option<Albedo>>> {
        let dim = self.brick_dim as int;
        let size = bounds.size as int;
        match self.nodes@[key] {
            NodeContent::Leaf(_) => {
                let per_cell = size / dim;
                let s = if per_cell < dim * 4 { per_cell } else { dim * 4 };
                if s == 0 {
                    None
                } else {
                    Some(self.voxel_block(key, bounds, V3c {
                        x: (((p.x - (p.x as int) % s) * (4 * dim)) / size) as u32,
                        y: (((p.y - (p.y as int) % s) * (4 * dim)) / size) as u32,
                        z: (((p.z - (p.z as int) % s) * (4 * dim)) / size) as u32,
                    }, s))
                }
            },
            NodeContent::Internal(_) => {
                if self.mip_method(bounds) == MIPResamplingMethods::PointFilterBD {
                    let s = size / dim;
                    if s == 0 {
                        None
                    } else {
                        Some(self.voxel_block(key, bounds, V3c {
                            x: (p.x - (p.x as int) % s) as u32,
                            y: (p.y - (p.y as int) % s) as u32,
                            z: (p.z - (p.z as int) % s) as u32,
                        }, s))
                    }
                } else {
                    let vx = ((p.x - bounds.min_position.x) * (4 * dim)) / size;
                    let vy = ((p.y - bounds.min_position.y) * (4 * dim)) / size;
                    let vz = ((p.z - bounds.min_position.z) * (4 * dim)) / size;
                    Some(self.child_mip_block(key, V3c {
                        x: (vx - vx % 4) as u32,
                        y: (vy - vy % 4) as u32,
                        z: (vz - vz % 4) as u32,
                    }))
                }
            },
            _ => None,
        }
    }

    /// Resampling happens exactly where MIP maps are enabled and the node takes samples. A leaf
    /// takes samples where a MIP cell spans at least one voxel; an internal node does unless its
    /// level resamples from the voxels with cells of no voxel; any other node takes none. The
    /// method and level are those of the strategy for the node's size.
    pub proof fn lemma_mip_updates(&self, key: int, bounds: Cube, p: V3c<u32>)
        ensures
            self.mip_updates(key, bounds, p) == (self.strategy().spec_enabled()
                && self.mip_samples(key, bounds, p) is Some),
            self.spec_brick_dim() > 0 && self.node_is_leaf(key) ==> ((self.mip_samples(key, bounds, p) is Some)
                == (bounds.size / self.spec_brick_dim() > 0)),
            self.spec_brick_dim() > 0 && self.node_is_internal(key) ==> ((self.mip_samples(key, bounds, p) is Some)
                == (self.mip_method(bounds) != MIPResamplingMethods::PointFilterBD
                    || bounds.size / self.spec_brick_dim() > 0)),
            !self.node_is_leaf(key) && !self.node_is_internal(key) ==> self.mip_samples(key, bounds, p) is None,
            self.mip_method(bounds) == self.strategy().method_at(self.mip_level_of(bounds)),
            self.mip_level_of(bounds) == floor_log2((bounds.size / self.spec_brick_dim()) as nat) as usize,
    {
        self.lemma_strategy_field();
        self.lemma_kinds_read_fields(key);
    }

    /// A MIP cell holding `e` (`prev` before resampling) holds what resampling the samples gives:
    /// where no color comes out the cell keeps `prev`; for a color `c`, a step of
    /// `color_step` taken while the palette grew to what it is now
    pub closed spec fn mip_cell_holds(&self, e: u32, prev: u32, samples: Seq<Option<Albedo>>, method: MIPResamplingMethods, thr: Option<u32>) -> bool {
        exists|r: Option<Albedo>| #[trigger] is_resample_result(method, samples, r) && match r {
            None => e == prev,
            Some(c) => color_cell_holds(self.voxel_color_palette@, e, prev, c, thr),
        }
    }
}

/// Index `i` holds the first color of the palette matching `c`
pub open spec fn is_first_match(pal: Seq<Albedo>, c: Albedo, thr: Option<u32>, i: int) -> bool {
    &&& 0 <= i < pal.len()
    &&& color_matches(Some(pal[i]), c, thr)
    &&& forall|j: int| 0 <= j < i ==> !color_matches(Some(#[trigger] pal[j]), c, thr)
}

/// No color of the palette matches `c`
pub open spec fn no_match(pal: Seq<Albedo>, c: Albedo, thr: Option<u32>) -> bool {
    forall|j: int| 0 <= j < pal.len() ==> !color_matches(Some(#[trigger] pal[j]), c, thr)
}

/// Storing the resampled color `c` in a MIP cell that held `prev`, the palette going from `pal0`
/// to `pal1`, leaves `e` in the cell: the palette index, without user data, of the first color of
/// `pal0` matching `c`, the palette unchanged; where none matches, the index of `c` itself, added
/// at the end of the palette; where none matches and the palette is full, `prev`, the palette
/// unchanged
pub open spec fn color_step(pal0: Seq<Albedo>, pal1: Seq<Albedo>, e: u32, prev: u32, c: Albedo, thr: Option<u32>) -> bool {
    ||| pal1 == pal0 && exists|i: int| #[trigger] is_first_match(pal0, c, thr, i) && e == pix_visual_spec(i as u32)
    ||| no_match(pal0, c, thr) && pal0.len() + 1 < EMPTY_INDEX && pal1 == pal0.push(c) && e == pix_visual_spec(pal0.len() as u32)
    ||| no_match(pal0, c, thr) && pal0.len() + 1 >= EMPTY_INDEX && pal1 == pal0 && e == prev
}

/// A MIP cell holding `e` (`prev` before) stands for the resampled color `c` within the palette
/// `pal`: a `color_step` was taken while the palette grew to `pal`, from its first `n` colors
/// to its first `m`
pub open spec fn color_cell_holds(pal: Seq<Albedo>, e: u32, prev: u32, c: Albedo, thr: Option<u32>) -> bool {
    exists|n: int, m: int| 0 <= n <= m <= pal.len() && #[trigger] color_step(pal.take(n), pal.take(m), e, prev, c, thr)
}

/// Resampling the samples and storing the color in a MIP cell that held `prev` leaves `e` in it,
/// the palette going from `pal0` to `pal1`: where no color comes out, the cell and the palette
/// are unchanged; for a color `c`, the step `color_step` says
pub open spec fn mip_step_holds(pal0: Seq<Albedo>, pal1: Seq<Albedo>, e: u32, prev: u32, samples: Seq<Option<Albedo>>, method: MIPResamplingMethods, thr: Option<u32>) -> bool {
    exists|r: Option<Albedo>| #[trigger] is_resample_result(method, samples, r) && match r {
        None => e == prev && pal1 == pal0,
        Some(c) => color_step(pal0, pal1, e, prev, c, thr),
    }
}

/// The corner of MIP cell `(x, y, z)` of a node covering `bounds`, with `dim` cells per axis
pub open spec fn cell_corner(bounds: Cube, dim: int, x: int, y: int, z: int) -> V3c<u32> {
    let cs = (bounds.size as int) / dim;
    V3c {
        x: (bounds.min_position.x + x * cs) as u32,
        y: (bounds.min_position.y + y * cs) as u32,
        z: (bounds.min_position.z + z * cs) as u32,
    }
}

/// The order in which the cells of a MIP map are visited: x slowest, z fastest
pub open spec fn cell_order(x: int, y: int, z: int, dim: int) -> int {
    x * (dim * dim) + y * dim + z
}

impl<T> BoxTree<T> {
    /// MIP cell `(x, y, z)` of node `key` holds what resampling it gives, `prev` being what it
    /// held before: what `mip_cell_holds` says where the node takes samples, nothing for a
    /// uniform leaf, and `prev` otherwise
    pub closed spec fn cell_resampled_from(&self, key: int, x: int, y: int, z: int, prev: u32) -> bool {
        let bounds = self.node_bounds@[key];
        let dim = self.brick_dim as int;
        let p = cell_corner(bounds, dim, x, y, z);
        let e = self.mip_entry(key, flat_index(x, y, z, dim));
        if self.mip_updates(key, bounds, p) {
            self.mip_cell_holds(e, prev, self.mip_samples(key, bounds, p)->0, self.mip_method(bounds), self.mip_threshold(bounds))
        } else if self.mip_map_strategy.spec_enabled() && self.nodes@[key] is UniformLeaf {
            e == EMPTY_MARKER
        } else {
            e == prev
        }
    }

    /// MIP cell `(x, y, z)` of node `key` holds what resampling it gives, starting from an empty
    /// MIP map
    pub closed spec fn mip_cell_resampled(&self, key: int, x: int, y: int, z: int) -> bool {
        self.cell_resampled_from(key, x, y, z, EMPTY_MARKER)
    }

    /// The cells of node `key` visited before the `n`-th were resampled, the others hold what
    /// they held in `old`
    pub(crate) closed spec fn cells_done(&self, old: &Self, key: int, n: int) -> bool {
        let dim = self.brick_dim as int;
        forall|x: int, y: int, z: int|
            #![trigger self.mip_entry(key, flat_index(x, y, z, dim))]
            0 <= x < dim && 0 <= y < dim && 0 <= z < dim ==> if cell_order(x, y, z, dim) < n {
                self.cell_resampled_from(key, x, y, z, old.mip_entry(key, flat_index(x, y, z, dim)))
            } else {
                self.mip_entry(key, flat_index(x, y, z, dim)) == old.mip_entry(key, flat_index(x, y, z, dim))
            }
    }
}

impl<T> BoxTree<T> {
    /// The color a palette index refers to
    pub(crate) fn pix_color(&self, pix: u32) -> (r: Option<Albedo>)
        ensures
            r == pix_parts(pix, self.voxel_color_palette@, self.voxel_data_palette@).0,
    {
        let ci = (pix >> 16u32) as usize;
        if ci < self.voxel_color_palette.len() {
            Some(self.voxel_color_palette[ci])
        } else {
            None
        }
    }

    /// The first color of the palette closer to the color than the threshold (thousandths of 255)
    pub(crate) fn similar_palette_color(&self, color: &Albedo, thr: u32) -> (r: Option<usize>)
        ensures
            r matches Some(i) ==> i < self.voxel_color_palette@.len() && color_distance_sq(
                *color,
                self.voxel_color_palette@[i as int],
            ) * 1_000_000 < (thr * 255) * (thr * 255) && forall|j: int| 0 <= j < i ==> !(
            color_distance_sq(*color, #[trigger] self.voxel_color_palette@[j]) * 1_000_000 < (thr * 255) * (thr
                * 255)),
            r is None ==> forall|j: int|
                0 <= j < self.voxel_color_palette@.len() ==> !(color_distance_sq(
                    *color,
                    #[trigger] self.voxel_color_palette@[j],
                ) * 1_000_000 < (thr * 255) * (thr * 255)),
    {
        let limit: u128 = (thr as u128) * 255;
        assert(limit * limit <= 0xffff_ffff_ffff_ffff_ffff_ffff_ffff_ffff) by (nonlinear_arith)
            requires limit <= 0xffff_ffff * 255;
        let mut i: usize = 0;
        while i < self.voxel_color_palette.len()
            invariant
                i <= self.voxel_color_palette@.len(),
                limit == thr * 255,
                limit * limit <= 0xffff_ffff_ffff_ffff_ffff_ffff_ffff_ffff,
                forall|j: int| 0 <= j < i ==> !(color_distance_sq(*color, #[trigger] self.voxel_color_palette@[j]) * 1_000_000 < (thr * 255) * (thr * 255)),
            decreases self.voxel_color_palette@.len() - i,
        {
            let d = color.distance_sq_from(&self.voxel_color_palette[i]) as u128;
            if d * 1_000_000 < limit * limit {
                return Some(i);
            }
            i += 1;
        }
        None
    }

    /// Resamples with the method the colors of the voxels of a node in the cube of `size`
    /// starting at `start`, taken in with x running slowest
    fn resample_voxels(&self, method: MIPResamplingMethods, node_key: usize, node_bounds: Cube, start: V3c<u32>, size: u32) -> (r: Option<Albedo>)
        requires
            self.wf(),
            node_key < self.nodes@.len(),
            node_bounds == self.node_bounds@[node_key as int],
        ensures
            is_resample_result(method, self.voxel_block(node_key as int, node_bounds, start, size as int), r),
    {
        let ghost sz = size as int;
        let ghost block = self.voxel_block(node_key as int, node_bounds, start, sz);
        assert(sz * (sz * sz) < max_stream()) by (nonlinear_arith)
            requires sz <= 0xffff_ffff, sz >= 0;
        let mut samples = Resampler::new(method);
        let mut x: u32 = 0;
        while x < size
            invariant
                self.wf(),
                node_key < self.nodes@.len(),
                node_bounds == self.node_bounds@[node_key as int],
                sz == size,
                block == self.voxel_block(node_key as int, node_bounds, start, sz),
                sz * (sz * sz) < max_stream(),
                samples.inv(),
                samples.method() == method,
                x <= size,
                samples.seen().len() == x * (sz * sz),
                forall|i: int| 0 <= i < samples.seen().len() ==> #[trigger] samples.seen()[i] == block[i],
            decreases size - x,
        {
            let mut y: u32 = 0;
            while y < size
                invariant
                    self.wf(),
                    node_key < self.nodes@.len(),
                    node_bounds == self.node_bounds@[node_key as int],
                    sz == size,
                    block == self.voxel_block(node_key as int, node_bounds, start, sz),
                    sz * (sz * sz) < max_stream(),
                    samples.inv(),
                    samples.method() == method,
                    x < size,
                    y <= size,
                    samples.seen().len() == x * (sz * sz) + y * sz,
                    forall|i: int| 0 <= i < samples.seen().len() ==> #[trigger] samples.seen()[i] == block[i],
                decreases size - y,
            {
                let mut z: u32 = 0;
                while z < size
                    invariant
                        self.wf(),
                        node_key < self.nodes@.len(),
                        node_bounds == self.node_bounds@[node_key as int],
                        sz == size,
                        block == self.voxel_block(node_key as int, node_bounds, start, sz),
                        sz * (sz * sz) < max_stream(),
                        samples.inv(),
                        samples.method() == method,
                        x < size,
                        y < size,
                        z <= size,
                        samples.seen().len() == x * (sz * sz) + y * sz + z,
                        forall|i: int| 0 <= i < samples.seen().len() ==> #[trigger] samples.seen()[i] == block[i],
                    decreases size - z,
                {
                    let ghost t = samples.seen().len() as int;
                    proof {
                        crate::spatial::lemma_flat3(x as int, y as int, z as int, sz, sz);
                        assert(t < sz * (sz * sz)) by (nonlinear_arith)
                            requires t == x * (sz * sz) + y * sz + z, x < sz, y < sz, z < sz;
                        assert(t >= 0);
                    }
                    let px = start.x as u64 + x as u64;
                    let py = start.y as u64 + y as u64;
                    let pz = start.z as u64 + z as u64;
                    let ghost before = samples.seen();
                    if px <= u32::MAX as u64 && py <= u32::MAX as u64 && pz <= u32::MAX as u64 {
                        let pos = V3c { x: px as u32, y: py as u32, z: pz as u32 };
                        let v = self.get_internal(node_key, node_bounds, &pos);
                        let c = self.pix_color(v);
                        proof {
                            lemma_pix_empty();
                        }
                        samples.push(c);
                    } else {
                        samples.push(None);
                    }
                    proof {
                        assert forall|i: int| 0 <= i < samples.seen().len() implies #[trigger] samples.seen()[i] == block[i] by {
                            if i < t {
                                assert(samples.seen()[i] == before[i]);
                            }
                        }
                    }
                    z += 1;
                }
                assert(x * (sz * sz) + y * sz + sz == x * (sz * sz) + (y + 1) * sz) by (nonlinear_arith);
                y += 1;
            }
            assert(x * (sz * sz) + sz * sz == (x + 1) * (sz * sz)) by (nonlinear_arith);
            x += 1;
        }
        assert(samples.seen() =~= block);
        samples.finish()
    }
}

/// `(offset * factor) / size`, computed without overflow
fn scale_offset(offset: u32, factor: u64, size: u32) -> (r: u32)
    requires
        0 < size,
        0 < factor <= size,
    ensures
        r == (offset * factor) / (size as int),
        offset < size ==> r < factor,
{
    assert((offset as u64) * factor <= 0xffff_ffff * 0xffff_ffff) by (nonlinear_arith)
        requires offset <= 0xffff_ffff, factor <= 0xffff_ffff;
    let prod = (offset as u64) * factor;
    assert((prod as int) / (size as int) <= offset) by {
        assert(prod <= offset * size) by (nonlinear_arith)
            requires prod == offset * factor, factor <= size;
        vstd::arithmetic::div_mod::lemma_div_is_ordered(prod as int, offset * size, size as int);
        vstd::arithmetic::div_mod::lemma_div_by_multiple(offset as int, size as int);
    }
    if offset < size {
        assert((prod as int) / (size as int) < factor) by {
            assert(prod < factor * size || factor == 0) by (nonlinear_arith)
                requires prod == offset * factor, offset < size;
            if factor > 0 {
                vstd::arithmetic::div_mod::lemma_div_by_multiple_is_strongly_ordered(prod as int, factor * size, factor as int, size as int);
                vstd::arithmetic::div_mod::lemma_div_by_multiple(factor as int, size as int);
            }
        }
    }
    (prod / (size as u64)) as u32
}

/// The offset rounded down to a multiple of the step
fn align_down(v: u32, step: u32) -> (r: u32)
    requires
        0 < step,
    ensures
        r == v - v % step,
        r <= v,
{
    proof {
        vstd::arithmetic::div_mod::lemma_mod_decreases(v as nat, step as nat);
    }
    v - v % step
}

impl<T> BoxTree<T> {
    /// Samples the colors of the MIP maps of the children of a node, in the cube of 4 cells
    /// starting at `start`; coordinates run over the `4 * brick_dim` cells of the children's
    /// MIP maps side by side, x running slowest
    fn sample_child_mips(&self, node_key: usize, start: V3c<u32>) -> (r: Vec<Option<Albedo>>)
        requires
            self.wf(),
            node_key < self.nodes@.len(),
            start.x + 4 <= 4 * self.brick_dim,
            start.y + 4 <= 4 * self.brick_dim,
            start.z + 4 <= 4 * self.brick_dim,
            4 * self.brick_dim <= 0x1_0000_0000,
        ensures
            r@ == self.child_mip_block(node_key as int, start),
    {
        let dim = self.brick_dim;
        let ghost block = self.child_mip_block(node_key as int, start);
        let mut samples: Vec<Option<Albedo>> = Vec::new();
        let mut x: u32 = 0;
        while x < 4
            invariant
                self.wf(),
                node_key < self.nodes@.len(),
                dim == self.brick_dim,
                start.x + 4 <= 4 * dim,
                start.y + 4 <= 4 * dim,
                start.z + 4 <= 4 * dim,
                4 * dim <= 0x1_0000_0000,
                block == self.child_mip_block(node_key as int, start),
                x <= 4,
                samples@.len() == x * 16,
                forall|i: int| 0 <= i < samples@.len() ==> #[trigger] samples@[i] == block[i],
            decreases 4 - x,
        {
            let mut y: u32 = 0;
            while y < 4
                invariant
                    self.wf(),
                    node_key < self.nodes@.len(),
                    dim == self.brick_dim,
                    start.x + 4 <= 4 * dim,
                    start.y + 4 <= 4 * dim,
                    start.z + 4 <= 4 * dim,
                    4 * dim <= 0x1_0000_0000,
                    block == self.child_mip_block(node_key as int, start),
                    x < 4,
                    y <= 4,
                    samples@.len() == x * 16 + y * 4,
                    forall|i: int| 0 <= i < samples@.len() ==> #[trigger] samples@[i] == block[i],
                decreases 4 - y,
            {
                let mut z: u32 = 0;
                while z < 4
                    invariant
                        self.wf(),
                        node_key < self.nodes@.len(),
                        dim == self.brick_dim,
                        start.x + 4 <= 4 * dim,
                        start.y + 4 <= 4 * dim,
                        start.z + 4 <= 4 * dim,
                        4 * dim <= 0x1_0000_0000,
                        block == self.child_mip_block(node_key as int, start),
                        x < 4,
                        y < 4,
                        z <= 4,
                        samples@.len() == x * 16 + y * 4 + z,
                        forall|i: int| 0 <= i < samples@.len() ==> #[trigger] samples@[i] == block[i],
                    decreases 4 - z,
                {
                    let ghost t = samples@.len() as int;
                    proof {
                        crate::spatial::lemma_flat3(x as int, y as int, z as int, 4, 4);
                    }
                    let qx = start.x + x;
                    let qy = start.y + y;
                    let qz = start.z + z;
                    assert(qx / dim < 4 && qy / dim < 4 && qz / dim < 4) by {
                        vstd::arithmetic::div_mod::lemma_div_by_multiple_is_strongly_ordered(qx as int, 4 * dim, 4, dim as int);
                        vstd::arithmetic::div_mod::lemma_div_by_multiple_is_strongly_ordered(qy as int, 4 * dim, 4, dim as int);
                        vstd::arithmetic::div_mod::lemma_div_by_multiple_is_strongly_ordered(qz as int, 4 * dim, 4, dim as int);
                        vstd::arithmetic::div_mod::lemma_div_by_multiple(4, dim as int);
                    }
                    let sectant = (qx / dim + 4 * (qy / dim) + 16 * (qz / dim)) as u8;
                    let child = self.child(node_key, sectant);
                    let ghost before = samples@;
                    if child >= self.nodes.len() {
                        samples.push(None);
                    } else {
                        proof {
                            assert(self.node_wf(child as int));
                            lemma_pix_empty();
                        }
                        match &self.node_mips[child] {
                            BrickData::Empty => samples.push(None),
                            BrickData::Solid(v) => samples.push(self.pix_color(*v)),
                            BrickData::Parted(b) => {
                                let d = dim as usize;
                                let n = b.len();
                                assert(n == d * d * d);
                                let idx = crate::spatial::flat_projection((qx % dim) as usize, (qy % dim) as usize, (qz % dim) as usize, d);
                                samples.push(self.pix_color(b[idx]));
                            },
                        }
                    }
                    proof {
                        assert(samples@[t] == block[t]);
                        assert forall|i: int| 0 <= i < samples@.len() implies #[trigger] samples@[i] == block[i] by {
                            if i < t {
                                assert(samples@[i] == before[i]);
                            }
                        }
                    }
                    z += 1;
                }
                y += 1;
            }
            x += 1;
        }
        samples
    }

    /// Every entry of a MIP map points into the palettes or marks the part absent
    proof fn lemma_mip_entry_valid(&self, k: int, f: int)
        requires
            self.wf(),
            0 <= k < self.nodes@.len(),
        ensures
            pix_valid(self.mip_entry(k, f), self.voxel_color_palette@.len(), self.voxel_data_palette@.len()),
    {
        assert(self.node_wf(k));
        lemma_pix_empty();
    }

    /// What a valid palette index refers to stays the same while colors are added to the palette
    proof fn lemma_color_stable(t1: &Self, t2: &Self, e: u32)
        requires
            t1.wf(),
            t2.wf(),
            pix_valid(e, t1.voxel_color_palette@.len(), t1.voxel_data_palette@.len()),
            t1.voxel_color_palette@.len() <= t2.voxel_color_palette@.len(),
            t1.voxel_color_palette@ == t2.voxel_color_palette@.subrange(0, t1.voxel_color_palette@.len() as int),
            t1.voxel_data_palette@ == t2.voxel_data_palette@,
        ensures
            t2.color_of(e) == t1.color_of(e),
            pix_parts(e, t2.voxel_color_palette@, t2.voxel_data_palette@)
                == pix_parts(e, t1.voxel_color_palette@, t1.voxel_data_palette@),
    {
        assert(t1.voxel_data_palette@ =~= t2.voxel_data_palette@.subrange(0, t1.voxel_data_palette@.len() as int));
        crate::boxtree::lemma_pix_parts_grow(e, t1.voxel_color_palette@, t1.voxel_data_palette@, t2.voxel_color_palette@, t2.voxel_data_palette@);
    }

    /// The samples of a node's MIP map do not depend on the node's own MIP map, nor on colors
    /// added to the palette since
    proof fn lemma_mip_samples_stable(t1: &Self, t2: &Self, key: int, bounds: Cube, p: V3c<u32>)
        requires
            t1.wf(),
            t2.wf(),
            0 <= key < t1.nodes@.len(),
            bounds == t1.node_bounds@[key],
            cube_contains(bounds, p),
            t2.mip_frame(t1, key),
        ensures
            t2.mip_samples(key, bounds, p) == t1.mip_samples(key, bounds, p),
            t2.mip_updates(key, bounds, p) == t1.mip_updates(key, bounds, p),
            t2.mip_method(bounds) == t1.mip_method(bounds),
            t2.mip_threshold(bounds) == t1.mip_threshold(bounds),
    {
        Self::lemma_mip_samples_kept(t1, t2, key, bounds, p);
    }

    /// The samples of a node's MIP map depend on the voxels and on the MIP maps of its children
    /// only, and not on colors added to the palette since
    proof fn lemma_mip_samples_kept(t1: &Self, t2: &Self, key: int, bounds: Cube, p: V3c<u32>)
        requires
            t1.wf(),
            t2.wf(),
            0 <= key < t1.nodes@.len(),
            bounds == t1.node_bounds@[key],
            cube_contains(bounds, p),
            t2.samples_kept(t1, key),
        ensures
            t2.mip_samples(key, bounds, p) == t1.mip_samples(key, bounds, p),
            t2.mip_updates(key, bounds, p) == t1.mip_updates(key, bounds, p),
            t2.mip_method(bounds) == t1.mip_method(bounds),
            t2.mip_threshold(bounds) == t1.mip_threshold(bounds),
    {
        assert(t1.node_wf(key));
        let dim = t1.brick_dim as int;
        let size = bounds.size as int;
        lemma_level_size(dim as nat, t1.node_levels@[key]);
        assert forall|s: V3c<u32>, n: int| #[trigger] t2.voxel_block(key, bounds, s, n) == t1.voxel_block(key, bounds, s, n) by {
            assert forall|i: int| 0 <= i < t1.voxel_block(key, bounds, s, n).len() implies #[trigger] t2.voxel_block(key, bounds, s, n)[i] == t1.voxel_block(key, bounds, s, n)[i] by {
                let x = s.x + i / (n * n);
                let y = s.y + (i / n) % n;
                let z = s.z + i % n;
                if x <= u32::MAX && y <= u32::MAX && z <= u32::MAX {
                    let q = V3c { x: x as u32, y: y as u32, z: z as u32 };
                    if cube_contains(bounds, q) {
                        Self::lemma_voxel_frame_size(t1, t2, key, bounds, q);
                        t1.lemma_node_voxel_valid(key, bounds, q);
                        Self::lemma_color_stable(t1, t2, t1.node_voxel(key, bounds, q));
                    }
                }
            }
            assert(t2.voxel_block(key, bounds, s, n) =~= t1.voxel_block(key, bounds, s, n));
        }
        match t1.nodes@[key] {
            NodeContent::Internal(_) => {
                if t1.mip_method(bounds) != MIPResamplingMethods::PointFilterBD {
                    let vx = ((p.x - bounds.min_position.x) * (4 * dim)) / size;
                    let vy = ((p.y - bounds.min_position.y) * (4 * dim)) / size;
                    let vz = ((p.z - bounds.min_position.z) * (4 * dim)) / size;
                    assert(vx < 4 * dim && vy < 4 * dim && vz < 4 * dim && vx >= 0 && vy >= 0 && vz >= 0) by {
                        assert((p.x - bounds.min_position.x) * (4 * dim) < size * (4 * dim)) by (nonlinear_arith)
                            requires p.x - bounds.min_position.x < size, dim >= 1;
                        assert((p.y - bounds.min_position.y) * (4 * dim) < size * (4 * dim)) by (nonlinear_arith)
                            requires p.y - bounds.min_position.y < size, dim >= 1;
                        assert((p.z - bounds.min_position.z) * (4 * dim) < size * (4 * dim)) by (nonlinear_arith)
                            requires p.z - bounds.min_position.z < size, dim >= 1;
                        vstd::arithmetic::div_mod::lemma_div_by_multiple_is_strongly_ordered((p.x - bounds.min_position.x) * (4 * dim), size * (4 * dim), 4 * dim, size);
                        vstd::arithmetic::div_mod::lemma_div_by_multiple_is_strongly_ordered((p.y - bounds.min_position.y) * (4 * dim), size * (4 * dim), 4 * dim, size);
                        vstd::arithmetic::div_mod::lemma_div_by_multiple_is_strongly_ordered((p.z - bounds.min_position.z) * (4 * dim), size * (4 * dim), 4 * dim, size);
                        vstd::arithmetic::div_mod::lemma_div_by_multiple(4 * dim, size);
                        assert((4 * dim) * size == size * (4 * dim)) by (nonlinear_arith);
                        vstd::arithmetic::div_mod::lemma_div_pos_is_pos((p.x - bounds.min_position.x) * (4 * dim), size);
                        vstd::arithmetic::div_mod::lemma_div_pos_is_pos((p.y - bounds.min_position.y) * (4 * dim), size);
                        vstd::arithmetic::div_mod::lemma_div_pos_is_pos((p.z - bounds.min_position.z) * (4 * dim), size);
                        assert((p.x - bounds.min_position.x) * (4 * dim) >= 0) by (nonlinear_arith)
                            requires p.x - bounds.min_position.x >= 0, dim >= 1;
                        assert((p.y - bounds.min_position.y) * (4 * dim) >= 0) by (nonlinear_arith)
                            requires p.y - bounds.min_position.y >= 0, dim >= 1;
                        assert((p.z - bounds.min_position.z) * (4 * dim) >= 0) by (nonlinear_arith)
                            requires p.z - bounds.min_position.z >= 0, dim >= 1;
                    }
                    let st = V3c { x: (vx - vx % 4) as u32, y: (vy - vy % 4) as u32, z: (vz - vz % 4) as u32 };
                    assert(st.x + 4 <= 4 * dim && st.y + 4 <= 4 * dim && st.z + 4 <= 4 * dim) by {
                        vstd::arithmetic::div_mod::lemma_fundamental_div_mod(vx, 4);
                        vstd::arithmetic::div_mod::lemma_fundamental_div_mod(vy, 4);
                        vstd::arithmetic::div_mod::lemma_fundamental_div_mod(vz, 4);
                        vstd::arithmetic::div_mod::lemma_fundamental_div_mod(4 * dim, 4);
                    }
                    assert forall|i: int| 0 <= i < 64 implies #[trigger] t2.child_mip_block(key, st)[i] == t1.child_mip_block(key, st)[i] by {
                        let qx = st.x + i / 16;
                        let qy = st.y + (i / 4) % 4;
                        let qz = st.z + i % 4;
                        assert(qx < 4 * dim && qy < 4 * dim && qz < 4 * dim);
                        assert(qx / dim < 4 && qy / dim < 4 && qz / dim < 4) by {
                            vstd::arithmetic::div_mod::lemma_div_by_multiple_is_strongly_ordered(qx, 4 * dim, 4, dim);
                            vstd::arithmetic::div_mod::lemma_div_by_multiple_is_strongly_ordered(qy, 4 * dim, 4, dim);
                            vstd::arithmetic::div_mod::lemma_div_by_multiple_is_strongly_ordered(qz, 4 * dim, 4, dim);
                            vstd::arithmetic::div_mod::lemma_div_by_multiple(4, dim);
                        }
                        let sec = qx / dim + 4 * (qy / dim) + 16 * (qz / dim);
                        assert(0 <= sec < 64);
                        let c = t1.child_key(key, sec);
                        if 0 <= c < t1.nodes@.len() {
                            match t1.node_children@[key] {
                                NodeChildren::Children(v) => {
                                    assert(v@[sec] == EMPTY_MARKER || (0 < v@[sec] < t1.nodes@.len()
                                        && t1.node_levels@[v@[sec] as int] + 1 == t1.node_levels@[key]));
                                },
                                _ => {},
                            }
                            assert(c != key);
                            t1.lemma_mip_entry_valid(c, flat_index(qx % dim, qy % dim, qz % dim, dim));
                            Self::lemma_color_stable(t1, t2, t1.mip_voxel(c, qx % dim, qy % dim, qz % dim));
                        }
                    }
                    assert(t2.child_mip_block(key, st) =~= t1.child_mip_block(key, st));
                }
            },
            _ => {},
        }
    }

    /// What a MIP cell holds stays justified while colors are added to the palette
    proof fn lemma_cell_holds_stable(t1: &Self, t2: &Self, e: u32, prev: u32, samples: Seq<Option<Albedo>>, method: MIPResamplingMethods, thr: Option<u32>)
        requires
            t1.mip_cell_holds(e, prev, samples, method, thr),
            t1.voxel_color_palette@.len() <= t2.voxel_color_palette@.len(),
            t1.voxel_color_palette@ == t2.voxel_color_palette@.subrange(0, t1.voxel_color_palette@.len() as int),
        ensures
            t2.mip_cell_holds(e, prev, samples, method, thr),
    {
        let p1 = t1.voxel_color_palette@;
        let p2 = t2.voxel_color_palette@;
        let r = choose|r: Option<Albedo>| #[trigger] is_resample_result(method, samples, r) && match r {
            None => e == prev,
            Some(c) => color_cell_holds(p1, e, prev, c, thr),
        };
        assert(is_resample_result(method, samples, r));
        if let Some(c) = r {
            let (n, m) = choose|n: int, m: int| 0 <= n <= m <= p1.len() && #[trigger] color_step(p1.take(n), p1.take(m), e, prev, c, thr);
            assert(p2.take(n) =~= p1.take(n));
            assert(p2.take(m) =~= p1.take(m));
            assert(color_step(p2.take(n), p2.take(m), e, prev, c, thr));
            assert(color_cell_holds(p2, e, prev, c, thr));
        }
    }

    /// A resampling step that left the palette as this tree holds it justifies the cell here
    proof fn lemma_step_gives_cell(&self, pal0: Seq<Albedo>, e: u32, prev: u32, samples: Seq<Option<Albedo>>, method: MIPResamplingMethods, thr: Option<u32>)
        requires
            mip_step_holds(pal0, self.voxel_color_palette@, e, prev, samples, method, thr),
        ensures
            self.mip_cell_holds(e, prev, samples, method, thr),
    {
        let p1 = self.voxel_color_palette@;
        let r = choose|r: Option<Albedo>| #[trigger] is_resample_result(method, samples, r) && match r {
            None => e == prev && p1 == pal0,
            Some(c) => color_step(pal0, p1, e, prev, c, thr),
        };
        assert(is_resample_result(method, samples, r));
        if let Some(c) = r {
            let n = pal0.len() as int;
            let m = p1.len() as int;
            assert(n <= m);
            assert(p1.take(n) =~= pal0);
            assert(p1.take(m) =~= p1);
            assert(color_step(p1.take(n), p1.take(m), e, prev, c, thr));
            assert(color_cell_holds(p1, e, prev, c, thr));
        }
    }

    /// A resampled MIP cell stays resampled while the node's MIP map, the MIP maps of its
    /// children and the nodes stay the same and colors are only added to the palette
    proof fn lemma_resampled_kept(t1: &Self, t2: &Self, key: int, x: int, y: int, z: int, prev: u32)
        requires
            t1.wf(),
            t2.wf(),
            0 <= key < t1.nodes@.len(),
            0 <= x < t1.brick_dim,
            0 <= y < t1.brick_dim,
            0 <= z < t1.brick_dim,
            t2.samples_kept(t1, key),
            t2.node_mips@[key] == t1.node_mips@[key],
            t1.cell_resampled_from(key, x, y, z, prev),
        ensures
            t2.cell_resampled_from(key, x, y, z, prev),
    {
        let bounds = t1.node_bounds@[key];
        let dim = t1.brick_dim as int;
        t1.lemma_corner_inside(key, x, y, z);
        let p = cell_corner(bounds, dim, x, y, z);
        Self::lemma_mip_samples_kept(t1, t2, key, bounds, p);
        let f = flat_index(x, y, z, dim);
        assert(t2.mip_entry(key, f) == t1.mip_entry(key, f));
        if t1.mip_updates(key, bounds, p) {
            t1.lemma_mip_entry_valid(key, f);
            assert(t1.voxel_data_palette@ =~= t2.voxel_data_palette@);
            Self::lemma_cell_holds_stable(t1, t2, t1.mip_entry(key, f), prev, t1.mip_samples(key, bounds, p)->0,
                t1.mip_method(bounds), t1.mip_threshold(bounds));
        }
    }

    /// Differences in one node's MIP map and added colors add up
    proof fn lemma_mip_frame_trans(t1: &Self, t2: &Self, t3: &Self, key: int)
        requires
            t2.mip_frame(t1, key),
            t3.mip_frame(t2, key),
        ensures
            t3.mip_frame(t1, key),
    {
        assert(t1.voxel_color_palette@ =~= t3.voxel_color_palette@.subrange(0, t1.voxel_color_palette@.len() as int));
    }

    /// The cell of a MIP map covering the corner of cell `x` is `x`
    proof fn lemma_corner_cell(x: int, cs: int, dim: int, size: int)
        requires
            0 <= x < dim,
            cs * dim == size,
            cs >= 1,
        ensures
            axis_cell(x * cs, dim, size) == x,
    {
        assert(x * cs * dim == x * size) by (nonlinear_arith)
            requires cs * dim == size;
        assert(size > 0) by (nonlinear_arith)
            requires cs * dim == size, cs >= 1, dim > x, x >= 0;
        vstd::arithmetic::div_mod::lemma_div_multiples_vanish(x, size);
        assert(x * size == size * x) by (nonlinear_arith);
    }

    /// The corners of the MIP cells of a node lie inside the node
    proof fn lemma_corner_inside(&self, key: int, x: int, y: int, z: int)
        requires
            self.wf(),
            0 <= key < self.nodes@.len(),
            0 <= x < self.brick_dim,
            0 <= y < self.brick_dim,
            0 <= z < self.brick_dim,
        ensures
            cube_contains(self.node_bounds@[key], cell_corner(self.node_bounds@[key], self.brick_dim as int, x, y, z)),
            ((self.node_bounds@[key].size as int) / (self.brick_dim as int)) * self.brick_dim == self.node_bounds@[key].size,
            (self.node_bounds@[key].size as int) / (self.brick_dim as int) >= 1,
            brick_index_of(self.node_bounds@[key], cell_corner(self.node_bounds@[key], self.brick_dim as int, x, y, z), self.brick_dim as int)
                == flat_index(x, y, z, self.brick_dim as int),
    {
        assert(self.node_wf(key));
        let b = self.node_bounds@[key];
        let dim = self.brick_dim as int;
        let j = self.node_levels@[key];
        let q = pow4(j);
        lemma_level_size(dim as nat, j);
        crate::boxtree::lemma_pow4_is_power(j);
        vstd::arithmetic::div_mod::lemma_div_multiples_vanish(q as int, dim);
        assert(dim * q == q * dim) by (nonlinear_arith);
        let cs = (b.size as int) / dim;
        assert(cs == q);
        assert(cs * dim == b.size);
        assert(cs >= 1) by (nonlinear_arith)
            requires cs * dim == b.size, b.size >= 4 * dim, dim >= 1;
        assert(x * cs < b.size && y * cs < b.size && z * cs < b.size) by (nonlinear_arith)
            requires x < dim, y < dim, z < dim, cs * dim == b.size, cs >= 1;
        assert(x * cs >= 0 && y * cs >= 0 && z * cs >= 0) by (nonlinear_arith)
            requires x >= 0, y >= 0, z >= 0, cs >= 1;
        Self::lemma_corner_cell(x, cs, dim, b.size as int);
        Self::lemma_corner_cell(y, cs, dim, b.size as int);
        Self::lemma_corner_cell(z, cs, dim, b.size as int);
    }

    /// Resampling the cell visited `n`-th extends the resampled cells by that cell
    proof fn lemma_cell_step(old: &Self, st: &Self, t: &Self, key: int, x: int, y: int, z: int)
        requires
            old.wf(),
            st.wf(),
            t.wf(),
            0 <= key < old.nodes@.len(),
            old.mip_map_strategy.spec_enabled(),
            old.nodes@[key] is Leaf || old.nodes@[key] is Internal,
            st.mip_frame(old, key),
            t.mip_frame(st, key),
            0 <= x < old.brick_dim,
            0 <= y < old.brick_dim,
            0 <= z < old.brick_dim,
            cube_contains(old.node_bounds@[key], cell_corner(old.node_bounds@[key], old.brick_dim as int, x, y, z)),
            brick_index_of(old.node_bounds@[key], cell_corner(old.node_bounds@[key], old.brick_dim as int, x, y, z), old.brick_dim as int)
                == flat_index(x, y, z, old.brick_dim as int),
            st.cells_done(old, key, cell_order(x, y, z, old.brick_dim as int)),
            ({
                let bounds = old.node_bounds@[key];
                let p = cell_corner(bounds, old.brick_dim as int, x, y, z);
                let dim = old.brick_dim as int;
                let f = brick_index_of(bounds, p, dim);
                &&& st.mip_updates(key, bounds, p) ==> {
                    &&& forall|g: int| 0 <= g < dim * dim * dim && g != f
                        ==> #[trigger] t.mip_entry(key, g) == st.mip_entry(key, g)
                    &&& t.mip_cell_holds(t.mip_entry(key, f), st.mip_entry(key, f), st.mip_samples(key, bounds, p)->0, st.mip_method(bounds), st.mip_threshold(bounds))
                }
                &&& !st.mip_updates(key, bounds, p) ==> t.node_mips@[key] == st.node_mips@[key]
            }),
        ensures
            t.cells_done(old, key, cell_order(x, y, z, old.brick_dim as int) + 1),
            t.mip_frame(old, key),
    {
        let dim = old.brick_dim as int;
        let bounds = old.node_bounds@[key];
        let n = cell_order(x, y, z, dim);
        Self::lemma_mip_frame_trans(old, st, t, key);
        assert(dim * dim * dim >= 1) by (nonlinear_arith)
            requires dim >= 1;
        assert forall|xx: int, yy: int, zz: int|
            #![trigger t.mip_entry(key, flat_index(xx, yy, zz, dim))]
            0 <= xx < dim && 0 <= yy < dim && 0 <= zz < dim implies if cell_order(xx, yy, zz, dim) < n + 1 {
                t.cell_resampled_from(key, xx, yy, zz, old.mip_entry(key, flat_index(xx, yy, zz, dim)))
            } else {
                t.mip_entry(key, flat_index(xx, yy, zz, dim)) == old.mip_entry(key, flat_index(xx, yy, zz, dim))
            } by {
            let g = flat_index(xx, yy, zz, dim);
            let f = flat_index(x, y, z, dim);
            let pp = cell_corner(bounds, dim, xx, yy, zz);
            old.lemma_corner_inside(key, xx, yy, zz);
            assert(st.mip_entry(key, g) == st.mip_entry(key, flat_index(xx, yy, zz, dim)));
            assert(0 <= g < dim * dim * dim) by (nonlinear_arith)
                requires 0 <= xx < dim, 0 <= yy < dim, 0 <= zz < dim, g == xx + yy * dim + zz * dim * dim;
            let same_cell = xx == x && yy == y && zz == z;
            if !same_cell {
                if g == f {
                    crate::boxtree::update::lemma_flat_injective(xx, yy, zz, x, y, z, dim);
                }
                assert(t.mip_entry(key, g) == st.mip_entry(key, g));
                crate::spatial::lemma_flat3(xx, yy, zz, dim, dim);
                crate::spatial::lemma_flat3(x, y, z, dim, dim);
                assert(cell_order(xx, yy, zz, dim) != n);
                if cell_order(xx, yy, zz, dim) < n {
                    Self::lemma_mip_samples_stable(old, st, key, bounds, pp);
                    Self::lemma_mip_samples_stable(old, t, key, bounds, pp);
                    if st.mip_updates(key, bounds, pp) {
                        st.lemma_mip_entry_valid(key, g);
                        Self::lemma_cell_holds_stable(st, t, st.mip_entry(key, g), old.mip_entry(key, g),
                            st.mip_samples(key, bounds, pp)->0, st.mip_method(bounds), st.mip_threshold(bounds));
                    }
                }
            } else {
                Self::lemma_mip_samples_stable(old, st, key, bounds, pp);
                Self::lemma_mip_samples_stable(old, t, key, bounds, pp);
            }
        }
    }

    /// The trees hold the same nodes and settings, colors were only added to the palette, and
    /// the MIP maps of the children of the node are the same
    pub(crate) open spec fn samples_kept(&self, old: &Self, key: int) -> bool {
        &&& self.same_voxels(old)
        &&& forall|s: int| 0 <= s < 64 && 0 <= old.child_key(key, s) < old.nodes@.len() && old.child_key(key, s) != key
            ==> #[trigger] self.node_mips@[old.child_key(key, s)] == old.node_mips@[old.child_key(key, s)]
    }

    /// The trees differ at most in the MIP map of one node, and in colors added to the palette
    pub(crate) open spec fn mip_frame(&self, old: &Self, key: int) -> bool {
        &&& self.nodes@ == old.nodes@
        &&& self.node_children@ == old.node_children@
        &&& self.node_bounds@ == old.node_bounds@
        &&& self.node_levels@ == old.node_levels@
        &&& self.node_mips@.len() == old.node_mips@.len()
        &&& forall|k: int| 0 <= k < old.node_mips@.len() && k != key ==> #[trigger] self.node_mips@[k] == old.node_mips@[k]
        &&& self.brick_dim == old.brick_dim
        &&& self.boxtree_size == old.boxtree_size
        &&& self.auto_simplify == old.auto_simplify
        &&& self.mip_map_strategy == old.mip_map_strategy
        &&& self.voxel_data_palette@ == old.voxel_data_palette@
        &&& old.voxel_color_palette@.len() <= self.voxel_color_palette@.len()
        &&& old.voxel_color_palette@ == self.voxel_color_palette@.subrange(0, old.voxel_color_palette@.len() as int)
    }

    /// Writes a palette index into the MIP map of a node, at the cell covering the position
    fn set_mip_entry(&mut self, node_key: usize, node_bounds: &Cube, position: &V3c<u32>, entry: u32)
        requires
            old(self).wf(),
            old(self).bricks_fit(),
            node_key < old(self).nodes@.len(),
            *node_bounds == old(self).node_bounds@[node_key as int],
            cube_contains(*node_bounds, *position),
            pix_valid(entry, old(self).voxel_color_palette@.len(), old(self).voxel_data_palette@.len()),
        ensures
            final(self).wf(),
            final(self).mip_frame(old(self), node_key as int),
            final(self).voxel_color_palette@ == old(self).voxel_color_palette@,
            final(self).mip_entry(node_key as int, brick_index_of(*node_bounds, *position, old(self).brick_dim as int)) == entry,
            forall|g: int| 0 <= g < old(self).brick_dim * old(self).brick_dim * old(self).brick_dim
                && g != brick_index_of(*node_bounds, *position, old(self).brick_dim as int)
                ==> #[trigger] final(self).mip_entry(node_key as int, g) == old(self).mip_entry(node_key as int, g),
    {
        let dim = self.brick_dim;
        proof {
            assert(old(self).node_wf(node_key as int));
            assert(dim * dim <= dim * dim * dim) by (nonlinear_arith)
                requires dim >= 1;
            vstd::arithmetic::mul::lemma_mul_nonnegative(dim as int, dim as int);
        }
        let ghost nc = old(self).voxel_color_palette@.len();
        let ghost nd = old(self).voxel_data_palette@.len();
        let n = (dim * dim * dim) as usize;
        let mi = crate::spatial::matrix_index_for(node_bounds, position, dim);
        let d = dim as usize;
        let flat = crate::spatial::flat_projection(mi.x, mi.y, mi.z, d);
        let mip = vec_take(&mut self.node_mips, node_key, BrickData::Empty);
        let ghost old_mip = mip;
        let mut brick: Vec<u32> = match mip {
            BrickData::Empty => filled_u32(EMPTY_MARKER, n),
            BrickData::Solid(v) => filled_u32(v, n),
            BrickData::Parted(b) => b,
        };
        let ghost before = brick@;
        brick.set(flat, entry);
        self.node_mips.set(node_key, BrickData::Parted(brick));
        proof {
            lemma_pix_empty();
            assert forall|j: int| 0 <= j < brick@.len() implies pix_valid(#[trigger] brick@[j], nc, nd) by {
                if j != flat {
                    assert(brick@[j] == before[j]);
                    match old_mip {
                        BrickData::Parted(b) => { assert(before[j] == b@[j]); },
                        _ => {},
                    }
                }
            }
            assert forall|k: int| 0 <= k < self.nodes@.len() implies self.node_wf(k) by {
                assert(old(self).node_wf(k));
                if k != node_key {
                    Self::lemma_node_wf_stable(old(self), self, k);
                }
            }
            assert(old(self).voxel_color_palette@ =~= self.voxel_color_palette@.subrange(0, old(self).voxel_color_palette@.len() as int));
        }
    }

    /// Finding no similar color, then adding the resampled color to the palette, is a step of
    /// `color_step`
    proof fn lemma_added_color_step(pal0: Seq<Albedo>, pal1: Seq<Albedo>, c: Albedo, thr: Option<u32>, r: Option<u32>, prev: u32)
        requires
            thr matches Some(t) ==> forall|j: int| 0 <= j < pal0.len()
                ==> !(color_distance_sq(c, #[trigger] pal0[j]) * 1_000_000 < (t * 255) * (t * 255)),
            !pal0.contains(c) ==> pal1 == (if pal0.len() + 1 < EMPTY_INDEX { pal0.push(c) } else { pal0 }),
            pal0.contains(c) ==> pal1 == pal0,
            r is None <==> (!pal0.contains(c) && pal0.len() + 1 >= EMPTY_INDEX),
            r matches Some(pix) ==> exists|i: int| 0 <= i < pal1.len() && pal1[i] == c
                && (forall|j: int| 0 <= j < i ==> #[trigger] pal1[j] != c) && pix == pix_visual_spec(i as u32),
        ensures
            match r {
                Some(pix) => color_step(pal0, pal1, pix, prev, c, thr),
                None => color_step(pal0, pal1, prev, prev, c, thr),
            },
    {
        if pal0.contains(c) {
            let pix = r->0;
            let i = choose|i: int| 0 <= i < pal1.len() && pal1[i] == c
                && (forall|j: int| 0 <= j < i ==> #[trigger] pal1[j] != c) && pix == pix_visual_spec(i as u32);
            assert forall|j: int| 0 <= j < i implies !color_matches(Some(#[trigger] pal0[j]), c, thr) by {
                assert(pal1[j] != c);
            }
            assert(is_first_match(pal0, c, thr, i));
        } else {
            assert forall|j: int| 0 <= j < pal0.len() implies !color_matches(Some(#[trigger] pal0[j]), c, thr) by {
                if pal0[j] == c {
                    assert(pal0.contains(c));
                }
            }
            if pal0.len() + 1 < EMPTY_INDEX {
                let pix = r->0;
                let i = choose|i: int| 0 <= i < pal1.len() && pal1[i] == c
                    && (forall|j: int| 0 <= j < i ==> #[trigger] pal1[j] != c) && pix == pix_visual_spec(i as u32);
                if i < pal0.len() {
                    assert(pal0[i] == pal1[i]);
                    assert(pal0.contains(c));
                }
                assert(i == pal0.len());
            }
        }
    }

    /// Updates the MIP map of the given node at the given position. It expects the MIP maps
    /// of the children of the node to be up-to-date.
    /// * `node_key` - The node to update the MIP map of
    /// * `node_bounds` - The bounds of the target node
    /// * `position` - The global position in alignment with node bounds
    pub(crate) fn update_mip(&mut self, node_key: usize, node_bounds: &Cube, position: &V3c<u32>)
        requires
            old(self).wf(),
            old(self).bricks_fit(),
            node_key < old(self).nodes@.len(),
            *node_bounds == old(self).node_bounds@[node_key as int],
            cube_contains(*node_bounds, *position),
        ensures
            final(self).wf(),
            final(self).mip_frame(old(self), node_key as int),
            old(self).mip_updates(node_key as int, *node_bounds, *position) ==> {
                let dim = old(self).brick_dim as int;
                let f = brick_index_of(*node_bounds, *position, dim);
                &&& forall|g: int| 0 <= g < dim * dim * dim && g != f
                    ==> #[trigger] final(self).mip_entry(node_key as int, g) == old(self).mip_entry(node_key as int, g)
                &&& mip_step_holds(
                    old(self).voxel_color_palette@,
                    final(self).voxel_color_palette@,
                    final(self).mip_entry(node_key as int, f),
                    old(self).mip_entry(node_key as int, f),
                    old(self).mip_samples(node_key as int, *node_bounds, *position)->0,
                    old(self).mip_method(*node_bounds),
                    old(self).mip_threshold(*node_bounds),
                )
                &&& final(self).mip_cell_holds(
                    final(self).mip_entry(node_key as int, f),
                    old(self).mip_entry(node_key as int, f),
                    old(self).mip_samples(node_key as int, *node_bounds, *position)->0,
                    old(self).mip_method(*node_bounds),
                    old(self).mip_threshold(*node_bounds),
                )
            },
            !old(self).mip_updates(node_key as int, *node_bounds, *position)
                ==> final(self).voxel_color_palette@ == old(self).voxel_color_palette@,
            final(self).voxel_color_palette@.len() <= old(self).voxel_color_palette@.len() + 1,
            old(self).mip_map_strategy.spec_enabled() && old(self).nodes@[node_key as int] is UniformLeaf
                ==> final(self).node_mips@[node_key as int] is Empty,
            !old(self).mip_updates(node_key as int, *node_bounds, *position)
                && !(old(self).mip_map_strategy.spec_enabled() && old(self).nodes@[node_key as int] is UniformLeaf)
                ==> final(self).node_mips@[node_key as int] == old(self).node_mips@[node_key as int],
    {
        proof {
            assert(old(self).voxel_color_palette@ =~= self.voxel_color_palette@.subrange(0, old(self).voxel_color_palette@.len() as int));
        }
        if !self.mip_map_strategy.is_enabled() {
            return;
        }
        let dim = self.brick_dim;
        proof {
            assert(old(self).node_wf(node_key as int));
            lemma_level_size(dim as nat, old(self).node_levels@[node_key as int]);
        }
        let size = node_bounds.size;
        let mip_level = floor_log2_exec(size / dim);
        let sampler = self.mip_map_strategy.get_method_at(mip_level);
        let dominant_bottom = matches!(sampler, MIPResamplingMethods::PointFilterBD);
        let ghost spec_samples = old(self).mip_samples(node_key as int, *node_bounds, *position);
        let sampled: Option<Albedo> = match &self.nodes[node_key] {
            NodeContent::Nothing => {
                return;
            },
            NodeContent::UniformLeaf(_) => {
                // Uniform leaf nodes need no MIP, their content is equivalent with it
                let old_mip = vec_take(&mut self.node_mips, node_key, BrickData::Empty);
                proof {
                    assert forall|k: int| 0 <= k < self.nodes@.len() implies self.node_wf(k) by {
                        assert(old(self).node_wf(k));
                        if k != node_key {
                            Self::lemma_node_wf_stable(old(self), self, k);
                        }
                    }
                }
                return;
            },
            NodeContent::Leaf(_) => {
                let per_cell = size / dim;
                let sample_size = if per_cell < dim * 4 { per_cell } else { dim * 4 };
                if sample_size == 0 {
                    return;
                }
                let sx = scale_offset(align_down(position.x, sample_size), 4 * (dim as u64), size);
                let sy = scale_offset(align_down(position.y, sample_size), 4 * (dim as u64), size);
                let sz = scale_offset(align_down(position.z, sample_size), 4 * (dim as u64), size);
                self.resample_voxels(sampler, node_key, *node_bounds, V3c { x: sx, y: sy, z: sz }, sample_size)
            },
            NodeContent::Internal(_) => {
                if dominant_bottom {
                    let sample_size = size / dim;
                    if sample_size == 0 {
                        return;
                    }
                    let start = V3c {
                        x: align_down(position.x, sample_size),
                        y: align_down(position.y, sample_size),
                        z: align_down(position.z, sample_size),
                    };
                    self.resample_voxels(sampler, node_key, *node_bounds, start, sample_size)
                } else {
                    let vx = scale_offset(position.x - node_bounds.min_position.x, 4 * (dim as u64), size);
                    let vy = scale_offset(position.y - node_bounds.min_position.y, 4 * (dim as u64), size);
                    let vz = scale_offset(position.z - node_bounds.min_position.z, 4 * (dim as u64), size);
                    let start = V3c { x: align_down(vx, 4), y: align_down(vy, 4), z: align_down(vz, 4) };
                    proof {
                        assert(start.x + 4 <= 4 * dim) by {
                            vstd::arithmetic::div_mod::lemma_fundamental_div_mod(vx as int, 4);
                            vstd::arithmetic::div_mod::lemma_fundamental_div_mod((4 * dim) as int, 4);
                        }
                        assert(start.y + 4 <= 4 * dim) by {
                            vstd::arithmetic::div_mod::lemma_fundamental_div_mod(vy as int, 4);
                        }
                        assert(start.z + 4 <= 4 * dim) by {
                            vstd::arithmetic::div_mod::lemma_fundamental_div_mod(vz as int, 4);
                        }
                    }
                    let samples = self.sample_child_mips(node_key, start);
                    resample(sampler, &samples)
                }
            },
        };
        assert(spec_samples is Some && is_resample_result(sampler, spec_samples->0, sampled));
        let ghost prev = old(self).mip_entry(node_key as int, brick_index_of(*node_bounds, *position, dim as int));
        let ghost thr_spec = old(self).mip_threshold(*node_bounds);
        let thr_opt = self.mip_map_strategy.threshold_if_set(mip_level);
        assert(thr_opt == thr_spec);
        let ghost pal0 = self.voxel_color_palette@;
        let mip_entry: Option<u32> = match sampled {
            None => None,
            Some(color) => match thr_opt {
                Some(thr) => match self.similar_palette_color(&color, thr) {
                    Some(i) => {
                        proof {
                            lemma_pix_visual(i as u32);
                            assert((i as u16) as u32 == i as u32);
                            let lim = (thr * 255) * (thr * 255);
                            lemma_distance_nonneg(color, pal0[i as int]);
                            assert(lim > 0);
                            assert(color_distance_sq(color, color) == 0);
                            assert forall|j: int| 0 <= j < i implies !color_matches(Some(#[trigger] pal0[j]), color, thr_opt) by {
                                if pal0[j] == color {
                                    assert(color_distance_sq(color, pal0[j]) == 0);
                                }
                            }
                            assert(is_first_match(pal0, color, thr_opt, i as int));
                            assert(color_step(pal0, self.voxel_color_palette@, pix_visual_spec(i as u32), prev, color, thr_opt));
                        }
                        Some(pix_visual(i as u16))
                    },
                    None => {
                        let r = self.add_albedo_to_palette(&color);
                        proof {
                            Self::lemma_added_color_step(pal0, self.voxel_color_palette@, color, thr_opt, r, prev);
                        }
                        r
                    },
                },
                None => {
                    let r = self.add_albedo_to_palette(&color);
                    proof {
                        Self::lemma_added_color_step(pal0, self.voxel_color_palette@, color, thr_opt, r, prev);
                    }
                    r
                },
            },
        };
        let ghost after_palette = *self;
        match mip_entry {
            Some(entry) => {
                self.set_mip_entry(node_key, node_bounds, position, entry);
            },
            None => {},
        }
        proof {
            assert(old(self).voxel_color_palette@ =~= self.voxel_color_palette@.subrange(0, old(self).voxel_color_palette@.len() as int));
            let f = brick_index_of(*node_bounds, *position, dim as int);
            assert(is_resample_result(sampler, spec_samples->0, sampled));
            match mip_entry {
                Some(e) => {
                    assert(self.mip_entry(node_key as int, f) == e);
                },
                None => {
                    assert(self.node_mips@[node_key as int] == old(self).node_mips@[node_key as int]);
                },
            }
            assert(mip_step_holds(pal0, self.voxel_color_palette@, self.mip_entry(node_key as int, f), prev, spec_samples->0, sampler, thr_opt));
            self.lemma_step_gives_cell(pal0, self.mip_entry(node_key as int, f), prev, spec_samples->0, sampler, thr_opt);
        }
    }
}

impl<T> BoxTree<T> {
    /// The trees hold the same nodes, with the same settings; only MIP maps differ and colors
    /// may have been added to the end of the palette
    pub(crate) open spec fn same_voxels(&self, old: &Self) -> bool {
        &&& self.nodes@ == old.nodes@
        &&& self.node_children@ == old.node_children@
        &&& self.node_bounds@ == old.node_bounds@
        &&& self.node_levels@ == old.node_levels@
        &&& self.node_mips@.len() == old.node_mips@.len()
        &&& self.brick_dim == old.brick_dim
        &&& self.boxtree_size == old.boxtree_size
        &&& self.auto_simplify == old.auto_simplify
        &&& self.mip_map_strategy == old.mip_map_strategy
        &&& self.voxel_data_palette@ == old.voxel_data_palette@
        &&& old.voxel_color_palette@.len() <= self.voxel_color_palette@.len()
        &&& old.voxel_color_palette@ == self.voxel_color_palette@.subrange(0, old.voxel_color_palette@.len() as int)
    }

    /// Trees holding the same nodes hold the same entries
    pub(crate) proof fn lemma_same_voxels_entries(t1: &Self, t2: &Self)
        requires
            t1.wf(),
            t2.wf(),
            t2.same_voxels(t1),
        ensures
            forall|p: V3c<u32>| #[trigger] t2.entry_at(p) == t1.entry_at(p),
            t2.same_content(t1),
    {
        assert forall|p: V3c<u32>| #[trigger] t2.entry_at(p) == t1.entry_at(p) by {
            let root = t1.root_cube();
            if cube_contains(root, p) {
                assert(t1.node_wf(0));
                Self::lemma_voxel_frame_size(t1, t2, 0, root, p);
                t1.lemma_node_voxel_valid(0, root, p);
                assert(t1.voxel_data_palette@ =~= t2.voxel_data_palette@.subrange(0, t1.voxel_data_palette@.len() as int));
                crate::boxtree::lemma_pix_parts_grow(t1.voxel_at(p), t1.colors(), t1.datas(), t2.colors(), t2.datas());
            }
        }
    }

    /// MIP maps stored as the same words hold the same palette indices
    pub(crate) proof fn lemma_mip_entry_from_words(t1: &Self, t2: &Self, k: int, f: int)
        requires
            crate::boxtree::bytecode::brick_words(t1.node_mips@[k]) == crate::boxtree::bytecode::brick_words(t2.node_mips@[k]),
        ensures
            t1.mip_entry(k, f) == t2.mip_entry(k, f),
    {
        let w1 = crate::boxtree::bytecode::brick_words(t1.node_mips@[k]);
        let w2 = crate::boxtree::bytecode::brick_words(t2.node_mips@[k]);
        assert(w1[0] == w2[0]);
        match (t1.node_mips@[k], t2.node_mips@[k]) {
            (BrickData::Solid(x), BrickData::Solid(y)) => {
                assert(w1[1] == x as u64 && w2[1] == y as u64);
            },
            (BrickData::Parted(x), BrickData::Parted(y)) => {
                assert(w1.len() == 1 + x@.len() && w2.len() == 1 + y@.len());
                if 0 <= f < x@.len() {
                    assert(w1[f + 1] == x@[f] as u64 && w2[f + 1] == y@[f] as u64);
                }
            },
            _ => {},
        }
    }

    /// Trees with the same connections below the root, the same MIP maps and the same palettes
    /// hold the same MIP maps at the root and its children
    pub(crate) proof fn lemma_same_mips(t1: &Self, t2: &Self)
        requires
            t1.nodes@.len() == t2.nodes@.len(),
            forall|s: int| #[trigger] t1.child_key(0, s) == t2.child_key(0, s),
            forall|k: int, f: int| 0 <= k < t1.nodes@.len() ==> #[trigger] t1.mip_entry(k, f) == t2.mip_entry(k, f),
            t1.voxel_color_palette@ == t2.voxel_color_palette@,
            t1.voxel_data_palette@ == t2.voxel_data_palette@,
            t1.brick_dim == t2.brick_dim,
        ensures
            t1.same_mips(t2),
    {
        assert forall|s: int, x: int, y: int, z: int| #[trigger] t1.mip_sample(s, x, y, z) == t2.mip_sample(s, x, y, z) by {
            let key = t1.root_mip_key(s);
            assert(t1.child_key(0, s) == t2.child_key(0, s));
            assert(key == t2.root_mip_key(s));
            if 0 <= key < t1.nodes@.len() {
                assert(t1.mip_voxel(key, x, y, z) == t2.mip_voxel(key, x, y, z)) by {
                    assert(t1.mip_entry(key, flat_index(x, y, z, t1.brick_dim as int)) == t2.mip_entry(key, flat_index(x, y, z, t1.brick_dim as int)));
                }
            }
        }
    }

    /// The flat index of the MIP cell of node `key` covering the position
    pub closed spec fn mip_cell_index(&self, key: int, p: V3c<u32>) -> int {
        brick_index_of(self.node_bounds@[key], p, self.brick_dim as int)
    }

    /// The palette index the MIP map of node `key` holds at the cell covering the position
    pub closed spec fn mip_entry_at(&self, key: int, p: V3c<u32>) -> u32 {
        self.mip_entry(key, self.mip_cell_index(key, p))
    }

    /// The MIP cells of node `key` other than the one covering the position hold what they
    /// held in `old`, where the node is not a uniform leaf of a tree with MIP maps enabled
    pub closed spec fn mip_rest_kept(&self, old: &Self, key: int, p: V3c<u32>) -> bool {
        let dim = self.brick_dim as int;
        !(self.mip_map_strategy.spec_enabled() && self.nodes@[key] is UniformLeaf) ==> forall|g: int|
            0 <= g < dim * dim * dim && g != self.mip_cell_index(key, p)
            ==> #[trigger] self.mip_entry(key, g) == old.mip_entry(key, g)
    }

    /// The MIP cells of a node depend on its MIP map, its bounds and the brick dimension only
    pub(crate) proof fn lemma_mip_cells_same(t1: &Self, t2: &Self, key: int, p: V3c<u32>)
        requires
            t1.node_mips@[key] == t2.node_mips@[key],
            t1.node_bounds@[key] == t2.node_bounds@[key],
            t1.brick_dim == t2.brick_dim,
        ensures
            t1.mip_entry_at(key, p) == t2.mip_entry_at(key, p),
            t1.mip_cell_index(key, p) == t2.mip_cell_index(key, p),
            forall|x: int, y: int, z: int| #[trigger] t1.mip_voxel(key, x, y, z) == t2.mip_voxel(key, x, y, z),
            forall|g: int| #[trigger] t1.mip_entry(key, g) == t2.mip_entry(key, g),
    {
    }

    /// What keeping the other MIP cells of a node means
    pub(crate) proof fn lemma_rest_kept(&self, old: &Self, key: int, p: V3c<u32>, g: int)
        requires
            self.mip_rest_kept(old, key, p),
            !(self.mip_map_strategy.spec_enabled() && self.nodes@[key] is UniformLeaf),
            0 <= g < self.brick_dim * self.brick_dim * self.brick_dim,
            g != self.mip_cell_index(key, p),
        ensures
            self.mip_entry(key, g) == old.mip_entry(key, g),
    {
    }

    /// An empty MIP map holds nothing in any cell
    pub(crate) proof fn lemma_mip_cells_empty(&self, key: int, p: V3c<u32>)
        requires
            self.node_mips@[key] is Empty,
        ensures
            self.mip_entry_at(key, p) == EMPTY_MARKER,
            forall|g: int| #[trigger] self.mip_entry(key, g) == EMPTY_MARKER,
    {
    }

    /// Trees with the same nodes, connections and bounds have the same paths
    pub(crate) proof fn lemma_path_same(t1: &Self, t2: &Self, p: V3c<u32>, d: nat)
        requires
            t1.nodes@ == t2.nodes@,
            t1.node_children@ == t2.node_children@,
            t1.node_bounds@ == t2.node_bounds@,
        ensures
            t1.path_key(p, d) == t2.path_key(p, d),
        decreases d,
    {
        if d > 0 {
            Self::lemma_path_same(t1, t2, p, (d - 1) as nat);
        }
    }

    /// The key of the node `d` steps below the root on the way down to the position: each step
    /// goes to the child of an internal node at the sectant of the position; -1 past the end
    pub closed spec fn path_key(&self, p: V3c<u32>, d: nat) -> int
        decreases d,
    {
        if d == 0 {
            0
        } else {
            let k = self.path_key(p, (d - 1) as nat);
            if 0 <= k < self.nodes@.len() && self.nodes@[k] is Internal {
                let c = self.child_key(k, sectant_of(self.node_bounds@[k], p));
                if 0 <= c < self.nodes@.len() {
                    c
                } else {
                    -1
                }
            } else {
                -1
            }
        }
    }

    /// The key of the node `d` steps below node `k` on the way down to the position, as
    /// `path_key` goes from the root; -1 past the end
    pub closed spec fn path_from(&self, k: int, p: V3c<u32>, d: nat) -> int
        decreases d,
    {
        if d == 0 {
            k
        } else {
            let j = self.path_from(k, p, (d - 1) as nat);
            if 0 <= j < self.nodes@.len() && self.nodes@[j] is Internal {
                let c = self.child_key(j, sectant_of(self.node_bounds@[j], p));
                if 0 <= c < self.nodes@.len() {
                    c
                } else {
                    -1
                }
            } else {
                -1
            }
        }
    }

    /// Every path starts at the root; each step goes to the child of the current internal node
    /// at the sectant of the position, or off the tree (`-1`) where there is none
    pub proof fn lemma_path_key_steps(&self, p: V3c<u32>, d: nat)
        requires
            self.wf(),
        ensures
            self.path_key(p, 0) == 0,
            self.path_key(p, d) == -1 || 0 <= self.path_key(p, d) < self.node_count(),
            self.path_key(p, d + 1) != -1 ==> 0 <= self.path_key(p, d) < self.node_count()
                && !self.node_is_leaf(self.path_key(p, d)) && !self.node_is_uniform_leaf(self.path_key(p, d))
                && !(self.path_key(p, d) == 0 && self.root_is_nothing())
                && self.path_key(p, d + 1) == self.child_key(self.path_key(p, d), sectant_of(self.node_cube(self.path_key(p, d)), p)),
        decreases d,
    {
        if d > 0 {
            self.lemma_path_key_steps(p, (d - 1) as nat);
        }
    }

    /// Below an empty root no path leads anywhere but to the root
    proof fn lemma_path_key_nothing(&self, p: V3c<u32>, d: nat)
        requires
            self.nodes@.len() >= 1,
            self.nodes@[0] is Nothing,
        ensures
            self.path_key(p, d) == 0 || self.path_key(p, d) == -1,
        decreases d,
    {
        if d > 0 {
            self.lemma_path_key_nothing(p, (d - 1) as nat);
        }
    }

    /// The path from the root is the path from node 0
    proof fn lemma_path_key_from(&self, p: V3c<u32>, d: nat)
        ensures
            self.path_key(p, d) == self.path_from(0, p, d),
        decreases d,
    {
        if d > 0 {
            self.lemma_path_key_from(p, (d - 1) as nat);
        }
    }

    /// A path of `d + 1` steps from a node is the path of `d` steps from its child on the way
    pub(crate) proof fn lemma_path_from_front(&self, k: int, p: V3c<u32>, d: nat)
        ensures
            self.path_from(k, p, d + 1) == if 0 <= k < self.nodes@.len() && self.nodes@[k] is Internal
                && 0 <= self.child_key(k, sectant_of(self.node_bounds@[k], p)) < self.nodes@.len() {
                self.path_from(self.child_key(k, sectant_of(self.node_bounds@[k], p)), p, d)
            } else {
                -1
            },
        decreases d,
    {
        let c = self.child_key(k, sectant_of(self.node_bounds@[k], p));
        let cond = 0 <= k < self.nodes@.len() && self.nodes@[k] is Internal && 0 <= c < self.nodes@.len();
        let j = self.path_from(k, p, d);
        assert(self.path_from(k, p, d + 1) == if 0 <= j < self.nodes@.len() && self.nodes@[j] is Internal
            && 0 <= self.child_key(j, sectant_of(self.node_bounds@[j], p)) < self.nodes@.len() {
            self.child_key(j, sectant_of(self.node_bounds@[j], p))
        } else {
            -1
        });
        if d > 0 {
            self.lemma_path_from_front(k, p, (d - 1) as nat);
            assert((((d - 1) as nat + 1) as nat) == d);
            if cond {
                assert(j == self.path_from(c, p, (d - 1) as nat));
                assert(self.path_from(c, p, d) == if 0 <= j < self.nodes@.len() && self.nodes@[j] is Internal
                    && 0 <= self.child_key(j, sectant_of(self.node_bounds@[j], p)) < self.nodes@.len() {
                    self.child_key(j, sectant_of(self.node_bounds@[j], p))
                } else {
                    -1
                });
            } else {
                assert(j == -1);
            }
        } else {
            assert(j == k);
        }
    }

    /// The nodes on a path from a node lie inside it and contain the position; past its first
    /// node they lie deeper
    proof fn lemma_path_from_within(&self, k: int, p: V3c<u32>, d: nat)
        requires
            self.wf(),
            0 <= k < self.nodes@.len(),
            cube_contains(self.node_bounds@[k], p),
            0 <= self.path_from(k, p, d) < self.nodes@.len(),
        ensures
            cube_within(self.node_bounds@[self.path_from(k, p, d)], self.node_bounds@[k]),
            cube_contains(self.node_bounds@[self.path_from(k, p, d)], p),
            d > 0 ==> self.node_levels@[self.path_from(k, p, d)] < self.node_levels@[k],
        decreases d,
    {
        if d > 0 {
            let j = self.path_from(k, p, (d - 1) as nat);
            assert(0 <= j < self.nodes@.len() && self.nodes@[j] is Internal);
            self.lemma_path_from_within(k, p, (d - 1) as nat);
            let s = sectant_of(self.node_bounds@[j], p);
            assert(self.node_wf(j));
            lemma_level_size(self.brick_dim as nat, self.node_levels@[j]);
            lemma_sectant_of(self.node_bounds@[j], p);
            self.lemma_child_node_within(j, s);
            match self.node_children@[j] {
                NodeChildren::Children(v) => {
                    assert(v@[s] == EMPTY_MARKER || (0 < v@[s] < self.nodes@.len()
                        && self.node_bounds@[v@[s] as int] == child_cube(self.node_bounds@[j], s)));
                },
                _ => {},
            }
        } else {
            assert(self.node_wf(k));
        }
    }

    /// Trees with the same nodes, connections and bounds have the same paths from a node
    proof fn lemma_path_from_same(t1: &Self, t2: &Self, k: int, p: V3c<u32>, d: nat)
        requires
            t1.nodes@ == t2.nodes@,
            t1.node_children@ == t2.node_children@,
            t1.node_bounds@ == t2.node_bounds@,
        ensures
            t1.path_from(k, p, d) == t2.path_from(k, p, d),
        decreases d,
    {
        if d > 0 {
            Self::lemma_path_from_same(t1, t2, k, p, (d - 1) as nat);
        }
    }

    /// The MIP cell of node `key` covering the position holds what updating it gives, `prev`
    /// being what it held before: what `mip_cell_holds` says where the node takes samples, an
    /// empty MIP map for a uniform leaf, and `prev` otherwise
    pub closed spec fn mip_cell_updated(&self, key: int, p: V3c<u32>, prev: u32) -> bool {
        let bounds = self.node_bounds@[key];
        let f = brick_index_of(bounds, p, self.brick_dim as int);
        if self.mip_updates(key, bounds, p) {
            self.mip_cell_holds(self.mip_entry(key, f), prev, self.mip_samples(key, bounds, p)->0, self.mip_method(bounds), self.mip_threshold(bounds))
        } else if self.mip_map_strategy.spec_enabled() && self.nodes@[key] is UniformLeaf {
            self.node_mips@[key] is Empty
        } else {
            self.mip_entry(key, f) == prev
        }
    }

    /// Past the end of the path there are no more nodes
    proof fn lemma_path_end(&self, p: V3c<u32>, a: nat, d: nat)
        requires
            !(0 <= self.path_key(p, a) < self.nodes@.len()),
            a <= d,
        ensures
            !(0 <= self.path_key(p, d) < self.nodes@.len()),
        decreases d - a,
    {
        if a < d {
            self.lemma_path_end(p, a, (d - 1) as nat);
        }
    }

    /// The nodes of the path lie deeper and deeper, inside the nodes before them, and the
    /// position lies inside each of them
    /// Each step of a path goes one level down
    proof fn lemma_path_depth(&self, p: V3c<u32>, d: nat)
        requires
            self.wf(),
            cube_contains(self.root_cube(), p),
            0 <= self.path_key(p, d) < self.nodes@.len(),
        ensures
            self.node_levels@[self.path_key(p, d)] + d == self.node_levels@[0],
        decreases d,
    {
        if d > 0 {
            let k = self.path_key(p, (d - 1) as nat);
            assert(0 <= k < self.nodes@.len() && self.nodes@[k] is Internal);
            self.lemma_path_depth(p, (d - 1) as nat);
            assert(self.node_wf(k));
            let s = sectant_of(self.node_bounds@[k], p);
            let c = self.child_key(k, s);
            assert(c == self.path_key(p, d));
            self.lemma_path_inside(p, (d - 1) as nat);
            lemma_level_size(self.brick_dim as nat, self.node_levels@[k]);
            lemma_sectant_of(self.node_bounds@[k], p);
            match self.node_children@[k] {
                NodeChildren::Children(v) => {
                    assert(0 <= s < 64);
                    assert(v@[s] == c);
                },
                _ => {},
            }
        }
    }

    proof fn lemma_path_levels(&self, p: V3c<u32>, a: nat, b: nat)
        requires
            self.wf(),
            cube_contains(self.root_cube(), p),
            a < b,
            0 <= self.path_key(p, b) < self.nodes@.len(),
        ensures
            0 <= self.path_key(p, a) < self.nodes@.len(),
            self.node_levels@[self.path_key(p, b)] < self.node_levels@[self.path_key(p, a)],
            cube_contains(self.node_bounds@[self.path_key(p, b)], p),
        decreases b - a,
    {
        let k = self.path_key(p, (b - 1) as nat);
        assert(0 <= k < self.nodes@.len() && self.nodes@[k] is Internal);
        let s = sectant_of(self.node_bounds@[k], p);
        self.lemma_path_inside(p, (b - 1) as nat);
        assert(self.node_wf(k));
        lemma_level_size(self.brick_dim as nat, self.node_levels@[k]);
        lemma_sectant_of(self.node_bounds@[k], p);
        self.lemma_child_node_within(k, s);
        match self.node_children@[k] {
            NodeChildren::Children(v) => {
                assert(v@[s] == EMPTY_MARKER || (0 < v@[s] < self.nodes@.len()
                    && self.node_bounds@[v@[s] as int] == child_cube(self.node_bounds@[k], s)));
            },
            _ => {},
        }
        if a < b - 1 {
            self.lemma_path_levels(p, a, (b - 1) as nat);
        }
    }

    /// The position lies inside each node of the path
    proof fn lemma_path_inside(&self, p: V3c<u32>, d: nat)
        requires
            self.wf(),
            cube_contains(self.root_cube(), p),
            0 <= self.path_key(p, d) < self.nodes@.len(),
        ensures
            cube_contains(self.node_bounds@[self.path_key(p, d)], p),
        decreases d,
    {
        if d > 0 {
            let k = self.path_key(p, (d - 1) as nat);
            self.lemma_path_inside(p, (d - 1) as nat);
            let s = sectant_of(self.node_bounds@[k], p);
            assert(self.node_wf(k));
            lemma_level_size(self.brick_dim as nat, self.node_levels@[k]);
            lemma_sectant_of(self.node_bounds@[k], p);
            match self.node_children@[k] {
                NodeChildren::Children(v) => {
                    assert(v@[s] == EMPTY_MARKER || (0 < v@[s] < self.nodes@.len()
                        && self.node_bounds@[v@[s] as int] == child_cube(self.node_bounds@[k], s)));
                },
                _ => {},
            }
        } else {
            assert(self.node_wf(0));
        }
    }

    /// An updated MIP cell stays updated while the node's MIP map, the MIP maps of its children
    /// and the nodes stay the same and colors are only added to the palette
    proof fn lemma_updated_kept(t1: &Self, t2: &Self, key: int, p: V3c<u32>, prev: u32)
        requires
            t1.wf(),
            t2.wf(),
            0 <= key < t1.nodes@.len(),
            cube_contains(t1.node_bounds@[key], p),
            t2.samples_kept(t1, key),
            t2.node_mips@[key] == t1.node_mips@[key],
            t1.mip_cell_updated(key, p, prev),
        ensures
            t2.mip_cell_updated(key, p, prev),
    {
        let bounds = t1.node_bounds@[key];
        let dim = t1.brick_dim as int;
        Self::lemma_mip_samples_kept(t1, t2, key, bounds, p);
        let f = brick_index_of(bounds, p, dim);
        assert(t2.mip_entry(key, f) == t1.mip_entry(key, f));
        if t1.mip_updates(key, bounds, p) {
            t1.lemma_mip_entry_valid(key, f);
            assert(t1.voxel_data_palette@ =~= t2.voxel_data_palette@);
            Self::lemma_cell_holds_stable(t1, t2, t1.mip_entry(key, f), prev, t1.mip_samples(key, bounds, p)->0,
                t1.mip_method(bounds), t1.mip_threshold(bounds));
        }
    }

    /// Updates the MIP maps of every node on the path from the root to the position,
    /// the deepest node first
    #[verifier::spinoff_prover]
    #[verifier::rlimit(30)]
    pub(crate) fn update_mips_on_path(&mut self, position: &V3c<u32>)
        requires
            old(self).wf(),
            old(self).bricks_fit(),
            cube_contains(old(self).root_cube(), *position),
        ensures
            final(self).wf(),
            final(self).same_voxels(old(self)),
            forall|d: nat| 0 <= old(self).path_key(*position, d) < old(self).nodes@.len()
                ==> #[trigger] final(self).mip_cell_updated(
                    old(self).path_key(*position, d),
                    *position,
                    old(self).mip_entry_at(old(self).path_key(*position, d), *position),
                ),
            forall|d: nat| 0 <= old(self).path_key(*position, d) < old(self).nodes@.len()
                ==> #[trigger] final(self).mip_rest_kept(old(self), old(self).path_key(*position, d), *position),
            forall|k: int| 0 <= k < old(self).nodes@.len() && (forall|d: nat| #[trigger] old(self).path_key(*position, d) != k)
                ==> final(self).node_mips@[k] == old(self).node_mips@[k],
            final(self).voxel_color_palette@.len() <= old(self).voxel_color_palette@.len() + 16,
    {
        let mut keys: Vec<usize> = Vec::new();
        let mut bounds_list: Vec<Cube> = Vec::new();
        let mut key: usize = 0;
        let mut bounds = Cube::root_bounds(self.boxtree_size);
        proof {
            assert(self.node_wf(0));
            assert(self.path_key(*position, 0) == 0);
        }
        loop
            invariant_except_break
                key as int == self.path_key(*position, keys@.len() as nat),
            invariant
                self.wf(),
                *self == *old(self),
                key < self.nodes@.len(),
                bounds == self.node_bounds@[key as int],
                cube_contains(bounds, *position),
                keys@.len() == bounds_list@.len(),
                forall|i: int| 0 <= i < keys@.len() ==> #[trigger] keys@[i] < self.nodes@.len()
                    && bounds_list@[i] == self.node_bounds@[keys@[i] as int]
                    && cube_contains(bounds_list@[i], *position)
                    && keys@[i] as int == self.path_key(*position, i as nat),
            ensures
                *self == *old(self),
                keys@.len() == bounds_list@.len(),
                forall|i: int| 0 <= i < keys@.len() ==> #[trigger] keys@[i] < self.nodes@.len()
                    && bounds_list@[i] == self.node_bounds@[keys@[i] as int]
                    && cube_contains(bounds_list@[i], *position)
                    && keys@[i] as int == self.path_key(*position, i as nat),
                !(0 <= self.path_key(*position, keys@.len() as nat) < self.nodes@.len()),
            decreases bounds.size,
        {
            let ghost prev_keys = keys@;
            let ghost prev_bounds = bounds_list@;
            keys.push(key);
            bounds_list.push(bounds);
            proof {
                assert(self.path_key(*position, keys@.len() as nat) == if self.nodes@[key as int] is Internal
                    && 0 <= self.child_key(key as int, sectant_of(bounds, *position)) < self.nodes@.len() {
                    self.child_key(key as int, sectant_of(bounds, *position))
                } else {
                    -1
                });
                assert forall|i: int| 0 <= i < keys@.len() implies #[trigger] keys@[i] < self.nodes@.len()
                    && bounds_list@[i] == self.node_bounds@[keys@[i] as int]
                    && cube_contains(bounds_list@[i], *position)
                    && keys@[i] as int == self.path_key(*position, i as nat) by {
                    if i < prev_keys.len() {
                        assert(keys@[i] == prev_keys[i]);
                        assert(bounds_list@[i] == prev_bounds[i]);
                    }
                }
                assert(self.node_wf(key as int));
                lemma_level_size(self.brick_dim as nat, self.node_levels@[key as int]);
            }
            match &self.nodes[key] {
                NodeContent::Internal(_) => {
                    let s = bounds.sectant_for(position);
                    let c = self.child(key, s);
                    if c < self.nodes.len() {
                        proof {
                            lemma_sectant_of(bounds, *position);
                        }
                        key = c;
                        bounds = bounds.child_bounds_for(s);
                    } else {
                        break;
                    }
                },
                _ => {
                    break;
                },
            }
        }
        let mut i = keys.len();
        proof {
            assert(old(self).voxel_color_palette@ =~= self.voxel_color_palette@.subrange(0, old(self).voxel_color_palette@.len() as int));
            assert(keys@.len() >= 1);
            let last = (keys@.len() - 1) as int;
            assert(keys@[last] < self.nodes@.len() && keys@[last] as int == self.path_key(*position, last as nat));
            self.lemma_path_depth(*position, last as nat);
            assert(self.node_wf(keys@[last] as int));
            assert(self.node_wf(0));
            crate::boxtree::lemma_level_bound(self.brick_dim as nat, self.node_levels@[0]);
            assert(keys@.len() <= 16);
        }
        let ghost dim = old(self).brick_dim as int;
        while i > 0
            invariant
                self.wf(),
                self.bricks_fit(),
                i <= keys@.len(),
                keys@.len() == bounds_list@.len(),
                self.same_voxels(old(self)),
                old(self).wf(),
                cube_contains(old(self).root_cube(), *position),
                dim == old(self).brick_dim,
                forall|j: int| 0 <= j < keys@.len() ==> #[trigger] keys@[j] < self.nodes@.len()
                    && bounds_list@[j] == self.node_bounds@[keys@[j] as int]
                    && cube_contains(bounds_list@[j], *position)
                    && keys@[j] as int == old(self).path_key(*position, j as nat),
                forall|j: int| i <= j < keys@.len() ==> #[trigger] self.mip_cell_updated(keys@[j] as int, *position,
                    old(self).mip_entry(keys@[j] as int, brick_index_of(old(self).node_bounds@[keys@[j] as int], *position, dim))),
                forall|j: int| i <= j < keys@.len() ==> #[trigger] self.mip_rest_kept(old(self), keys@[j] as int, *position),
                forall|k: int| 0 <= k < old(self).nodes@.len() && (forall|j: int| 0 <= j < keys@.len() && j >= i ==> #[trigger] keys@[j] != k)
                    ==> self.node_mips@[k] == old(self).node_mips@[k],
                keys@.len() <= 16,
                self.voxel_color_palette@.len() <= old(self).voxel_color_palette@.len() + (keys@.len() - i),
            decreases i,
        {
            i -= 1;
            let ghost before = *self;
            self.update_mip(keys[i], &bounds_list[i], position);
            proof {
                assert(before.voxel_color_palette@ == self.voxel_color_palette@.subrange(0, before.voxel_color_palette@.len() as int));
                assert(old(self).voxel_color_palette@ =~= self.voxel_color_palette@.subrange(0, old(self).voxel_color_palette@.len() as int));
                let ki = keys@[i as int] as int;
                let bi = bounds_list@[i as int];
                Self::lemma_mip_samples_stable(&before, self, ki, bi, *position);
                assert(before.node_mips@[ki] == old(self).node_mips@[ki]) by {
                    assert forall|j: int| 0 <= j < keys@.len() && j >= i + 1 implies #[trigger] keys@[j] != ki by {
                        assert(keys@[j] < before.nodes@.len() && keys@[j] as int == old(self).path_key(*position, j as nat));
                        assert(before.nodes@.len() == old(self).nodes@.len());
                        old(self).lemma_path_levels(*position, i as nat, j as nat);
                    }
                }
                assert(self.mip_cell_updated(ki, *position, old(self).mip_entry(ki, brick_index_of(old(self).node_bounds@[ki], *position, dim))));
                assert(self.mip_rest_kept(old(self), ki, *position));
                assert forall|j: int| i <= j < keys@.len() implies #[trigger] self.mip_rest_kept(old(self), keys@[j] as int, *position) by {
                    if j > i {
                        let kj = keys@[j] as int;
                        assert(keys@[j] < self.nodes@.len() && keys@[j] as int == old(self).path_key(*position, j as nat));
                        assert(self.nodes@.len() == old(self).nodes@.len());
                        old(self).lemma_path_levels(*position, i as nat, j as nat);
                        assert(self.node_mips@[kj] == before.node_mips@[kj]);
                        assert(before.mip_rest_kept(old(self), kj, *position));
                        if !(self.mip_map_strategy.spec_enabled() && self.nodes@[kj] is UniformLeaf) {
                            assert forall|g: int| 0 <= g < dim * dim * dim && g != self.mip_cell_index(kj, *position)
                                implies #[trigger] self.mip_entry(kj, g) == old(self).mip_entry(kj, g) by {
                                assert(self.mip_cell_index(kj, *position) == before.mip_cell_index(kj, *position));
                                assert(before.mip_entry(kj, g) == old(self).mip_entry(kj, g));
                            }
                        }
                    }
                }
                assert forall|j: int| i <= j < keys@.len() implies #[trigger] self.mip_cell_updated(keys@[j] as int, *position,
                    old(self).mip_entry(keys@[j] as int, brick_index_of(old(self).node_bounds@[keys@[j] as int], *position, dim))) by {
                    if j > i {
                        let kj = keys@[j] as int;
                        assert(keys@[j] < self.nodes@.len() && keys@[j] as int == old(self).path_key(*position, j as nat));
                        assert(self.nodes@.len() == old(self).nodes@.len());
                        old(self).lemma_path_levels(*position, i as nat, j as nat);
                        assert forall|u: int| 0 <= u < 64 && 0 <= before.child_key(kj, u) < before.nodes@.len() && before.child_key(kj, u) != kj
                            implies #[trigger] self.node_mips@[before.child_key(kj, u)] == before.node_mips@[before.child_key(kj, u)] by {
                            before.lemma_child_node_within(kj, u);
                        }
                        Self::lemma_updated_kept(&before, self, kj, *position,
                            old(self).mip_entry(kj, brick_index_of(old(self).node_bounds@[kj], *position, dim)));
                    }
                }
            }
        }
        proof {
            assert forall|d: nat| 0 <= old(self).path_key(*position, d) < old(self).nodes@.len()
                implies #[trigger] self.mip_cell_updated(
                    old(self).path_key(*position, d),
                    *position,
                    old(self).mip_entry_at(old(self).path_key(*position, d), *position),
                ) by {
                if d >= keys@.len() {
                    old(self).lemma_path_end(*position, keys@.len() as nat, d);
                }
                assert(keys@[d as int] as int == old(self).path_key(*position, d));
            }
            assert forall|d: nat| 0 <= old(self).path_key(*position, d) < old(self).nodes@.len()
                implies #[trigger] self.mip_rest_kept(old(self), old(self).path_key(*position, d), *position) by {
                if d >= keys@.len() {
                    old(self).lemma_path_end(*position, keys@.len() as nat, d);
                }
                assert(keys@[d as int] as int == old(self).path_key(*position, d));
            }
            assert forall|k: int| 0 <= k < old(self).nodes@.len() && (forall|d: nat| #[trigger] old(self).path_key(*position, d) != k)
                implies self.node_mips@[k] == old(self).node_mips@[k] by {
                assert forall|j: int| 0 <= j < keys@.len() && j >= 0 implies #[trigger] keys@[j] != k by {
                    assert(keys@[j] as int == old(self).path_key(*position, j as nat));
                }
            }
        }
    }
}

impl<T> BoxTree<T> {
    /// Resamples every cell of the MIP map of the given node
    #[verifier::spinoff_prover]
    pub(crate) fn recalculate_mip(&mut self, node_key: usize, node_bounds: &Cube)
        requires
            old(self).wf(),
            old(self).bricks_fit(),
            node_key < old(self).nodes@.len(),
            *node_bounds == old(self).node_bounds@[node_key as int],
        ensures
            final(self).wf(),
            final(self).same_voxels(old(self)),
            final(self).mip_frame(old(self), node_key as int),
            forall|x: int, y: int, z: int|
                0 <= x < old(self).brick_dim && 0 <= y < old(self).brick_dim && 0 <= z < old(self).brick_dim
                ==> #[trigger] final(self).cell_resampled_from(
                    node_key as int,
                    x,
                    y,
                    z,
                    old(self).mip_entry(node_key as int, flat_index(x, y, z, old(self).brick_dim as int)),
                ),
    {
        proof {
            assert(old(self).voxel_color_palette@ =~= self.voxel_color_palette@.subrange(0, old(self).voxel_color_palette@.len() as int));
        }
        let ghost dimi = old(self).brick_dim as int;
        if !self.mip_map_strategy.is_enabled() {
            return;
        }
        let kind_skip = match &self.nodes[node_key] {
            NodeContent::Nothing => 0u8,
            NodeContent::UniformLeaf(_) => 1u8,
            _ => 2u8,
        };
        if kind_skip == 0 {
            return;
        }
        if kind_skip == 1 {
            // Uniform leaf nodes need no MIP, their content is equivalent with it
            let old_mip = vec_take(&mut self.node_mips, node_key, BrickData::Empty);
            proof {
                assert forall|k: int| 0 <= k < self.nodes@.len() implies self.node_wf(k) by {
                    assert(old(self).node_wf(k));
                    if k != node_key {
                        Self::lemma_node_wf_stable(old(self), self, k);
                    }
                }
            }
            return;
        }
        let dim = self.brick_dim;
        proof {
            old(self).lemma_corner_inside(node_key as int, 0, 0, 0);
            assert(old(self).node_wf(node_key as int));
        }
        let cell = node_bounds.size / dim;
        let mut x: u32 = 0;
        proof {
            assert(cell_order(0, 0, 0, dimi) == 0);
            assert forall|x: int, y: int, z: int| 0 <= x < dimi && 0 <= y < dimi && 0 <= z < dimi
                implies cell_order(x, y, z, dimi) >= 0 by {
                assert(x * (dimi * dimi) >= 0 && y * dimi >= 0) by (nonlinear_arith)
                    requires x >= 0, y >= 0, dimi >= 0;
            }
            assert(self.cells_done(old(self), node_key as int, 0));
        }
        while x < dim
            invariant
                old(self).wf(),
                old(self).mip_map_strategy.spec_enabled(),
                old(self).nodes@[node_key as int] is Leaf || old(self).nodes@[node_key as int] is Internal,
                self.wf(),
                self.bricks_fit(),
                self.mip_frame(old(self), node_key as int),
                node_key < self.nodes@.len(),
                *node_bounds == old(self).node_bounds@[node_key as int],
                dim == old(self).brick_dim,
                dimi == dim,
                cell == (node_bounds.size as int) / dimi,
                cell * dim == node_bounds.size,
                cell >= 1,
                cube_fits(*node_bounds),
                x <= dim,
                self.cells_done(old(self), node_key as int, cell_order(x as int, 0, 0, dimi)),
            decreases dim - x,
        {
            let mut y: u32 = 0;
            while y < dim
                invariant
                    old(self).wf(),
                    old(self).mip_map_strategy.spec_enabled(),
                    old(self).nodes@[node_key as int] is Leaf || old(self).nodes@[node_key as int] is Internal,
                    self.wf(),
                    self.bricks_fit(),
                    self.mip_frame(old(self), node_key as int),
                    node_key < self.nodes@.len(),
                    *node_bounds == old(self).node_bounds@[node_key as int],
                    dim == old(self).brick_dim,
                    dimi == dim,
                    cell == (node_bounds.size as int) / dimi,
                    cell * dim == node_bounds.size,
                    cell >= 1,
                    cube_fits(*node_bounds),
                    x < dim,
                    y <= dim,
                    self.cells_done(old(self), node_key as int, cell_order(x as int, y as int, 0, dimi)),
                decreases dim - y,
            {
                let mut z: u32 = 0;
                while z < dim
                    invariant
                        old(self).wf(),
                        old(self).mip_map_strategy.spec_enabled(),
                        old(self).nodes@[node_key as int] is Leaf || old(self).nodes@[node_key as int] is Internal,
                        self.wf(),
                        self.bricks_fit(),
                        self.mip_frame(old(self), node_key as int),
                        node_key < self.nodes@.len(),
                        *node_bounds == old(self).node_bounds@[node_key as int],
                        dim == old(self).brick_dim,
                        dimi == dim,
                        cell == (node_bounds.size as int) / dimi,
                        cell * dim == node_bounds.size,
                        cell >= 1,
                        cube_fits(*node_bounds),
                        x < dim,
                        y < dim,
                        z <= dim,
                        self.cells_done(old(self), node_key as int, cell_order(x as int, y as int, z as int, dimi)),
                    decreases dim - z,
                {
                    proof {
                        old(self).lemma_corner_inside(node_key as int, x as int, y as int, z as int);
                    }
                    assert(x * cell < node_bounds.size && y * cell < node_bounds.size && z * cell < node_bounds.size) by (nonlinear_arith)
                        requires x < dim, y < dim, z < dim, cell * dim == node_bounds.size, cell >= 1;
                    assert(x * cell >= 0 && y * cell >= 0 && z * cell >= 0) by (nonlinear_arith)
                        requires x >= 0, y >= 0, z >= 0, cell >= 0;
                    let pos = V3c {
                        x: node_bounds.min_position.x + x * cell,
                        y: node_bounds.min_position.y + y * cell,
                        z: node_bounds.min_position.z + z * cell,
                    };
                    assert(pos == cell_corner(*node_bounds, dimi, x as int, y as int, z as int));
                    let ghost before = *self;
                    proof {
                        Self::lemma_mip_samples_stable(old(self), &before, node_key as int, *node_bounds, pos);
                    }
                    self.update_mip(node_key, node_bounds, &pos);
                    proof {
                        Self::lemma_cell_step(old(self), &before, self, node_key as int, x as int, y as int, z as int);
                        assert(cell_order(x as int, y as int, z as int, dimi) + 1 == cell_order(x as int, y as int, z + 1, dimi));
                    }
                    z += 1;
                }
                assert(cell_order(x as int, y as int, dimi, dimi) == cell_order(x as int, y + 1, 0, dimi)) by (nonlinear_arith);
                y += 1;
            }
            assert(cell_order(x as int, dimi, 0, dimi) == cell_order(x + 1, 0, 0, dimi)) by (nonlinear_arith);
            x += 1;
        }
        proof {
            assert forall|xx: int, yy: int, zz: int|
                0 <= xx < dimi && 0 <= yy < dimi && 0 <= zz < dimi implies #[trigger] self.cell_resampled_from(
                    node_key as int,
                    xx,
                    yy,
                    zz,
                    old(self).mip_entry(node_key as int, flat_index(xx, yy, zz, dimi)),
                ) by {
                assert(self.mip_entry(node_key as int, flat_index(xx, yy, zz, dimi)) == self.mip_entry(node_key as int, flat_index(xx, yy, zz, dimi)));
                assert(cell_order(xx, yy, zz, dimi) < cell_order(dimi, 0, 0, dimi)) by (nonlinear_arith)
                    requires 0 <= xx < dimi, 0 <= yy < dimi, 0 <= zz < dimi;
            }
        }
    }

    /// The bounds of a node are not empty, and those of a node below another lie inside it
    proof fn lemma_child_node_within(&self, c: int, u: int)
        requires
            self.wf(),
            0 <= c < self.nodes@.len(),
            0 <= u < 64,
            0 <= self.child_key(c, u) < self.nodes@.len(),
        ensures
            cube_within(self.node_bounds@[self.child_key(c, u)], self.node_bounds@[c]),
            self.node_bounds@[self.child_key(c, u)].size >= 1,
            self.node_levels@[self.child_key(c, u)] < self.node_levels@[c],
    {
        assert(self.node_wf(c));
        lemma_level_size(self.brick_dim as nat, self.node_levels@[c]);
        let b = self.node_bounds@[c];
        match self.node_children@[c] {
            NodeChildren::Children(v) => {
                assert(v@[u] == EMPTY_MARKER || (0 < v@[u] < self.nodes@.len()
                    && self.node_bounds@[v@[u] as int] == child_cube(b, u)
                    && self.node_levels@[v@[u] as int] + 1 == self.node_levels@[c]));
            },
            _ => {},
        }
        lemma_child_within(b, u);
        lemma_child_cube(b, u);
    }

    /// A node inside one child cube of a node is not inside another
    proof fn lemma_inside_one_sibling(&self, k: int, s: int, s2: int, j: int)
        requires
            self.wf(),
            0 <= k < self.nodes@.len(),
            0 <= j < self.nodes@.len(),
            0 <= s < 64,
            0 <= s2 < 64,
            s != s2,
            cube_splittable(self.node_bounds@[k]),
            cube_fits(self.node_bounds@[k]),
            cube_within(self.node_bounds@[j], child_cube(self.node_bounds@[k], s2)),
        ensures
            !cube_within(self.node_bounds@[j], child_cube(self.node_bounds@[k], s)),
    {
        assert(self.node_wf(j));
        lemma_level_size(self.brick_dim as nat, self.node_levels@[j]);
        if cube_within(self.node_bounds@[j], child_cube(self.node_bounds@[k], s)) {
            lemma_within_one_child(self.node_bounds@[k], self.node_bounds@[j], s, s2);
        }
    }

    /// A node inside one child cube of node `k`, and its children, keep their MIP maps while
    /// only nodes inside another child cube change theirs
    proof fn lemma_kept_outside(t1: &Self, t2: &Self, k: int, s: int, s2: int, node: int)
        requires
            t1.wf(),
            t2.same_voxels(t1),
            0 <= k < t1.nodes@.len(),
            0 <= node < t1.nodes@.len(),
            0 <= s < 64,
            0 <= s2 < 64,
            s != s2,
            cube_splittable(t1.node_bounds@[k]),
            cube_fits(t1.node_bounds@[k]),
            cube_within(t1.node_bounds@[node], child_cube(t1.node_bounds@[k], s2)),
            forall|j: int| 0 <= j < t1.nodes@.len() && !cube_within(t1.node_bounds@[j], child_cube(t1.node_bounds@[k], s))
                ==> #[trigger] t2.node_mips@[j] == t1.node_mips@[j],
        ensures
            t2.samples_kept(t1, node),
            t2.node_mips@[node] == t1.node_mips@[node],
    {
        t1.lemma_inside_one_sibling(k, s, s2, node);
        assert forall|u: int| 0 <= u < 64 && 0 <= t1.child_key(node, u) < t1.nodes@.len() && t1.child_key(node, u) != node
            implies #[trigger] t2.node_mips@[t1.child_key(node, u)] == t1.node_mips@[t1.child_key(node, u)] by {
            let cu = t1.child_key(node, u);
            t1.lemma_child_node_within(node, u);
            t1.lemma_inside_one_sibling(k, s, s2, cu);
        }
    }

    /// Recalculates the MIP maps of the subtree of the given node, children before parents
    fn recalculate_subtree_mips(&mut self, node_key: usize, node_bounds: &Cube)
        requires
            old(self).wf(),
            old(self).bricks_fit(),
            node_key < old(self).nodes@.len(),
            *node_bounds == old(self).node_bounds@[node_key as int],
        ensures
            final(self).wf(),
            final(self).same_voxels(old(self)),
            forall|j: int| 0 <= j < old(self).nodes@.len() && old(self).node_levels@[j] > old(self).node_levels@[node_key as int]
                ==> #[trigger] final(self).node_mips@[j] == old(self).node_mips@[j],
            forall|j: int| 0 <= j < old(self).nodes@.len() && !cube_within(old(self).node_bounds@[j], *node_bounds)
                ==> #[trigger] final(self).node_mips@[j] == old(self).node_mips@[j],
            forall|x: int, y: int, z: int|
                0 <= x < old(self).brick_dim && 0 <= y < old(self).brick_dim && 0 <= z < old(self).brick_dim
                ==> #[trigger] final(self).cell_resampled_from(
                    node_key as int,
                    x,
                    y,
                    z,
                    old(self).mip_entry(node_key as int, flat_index(x, y, z, old(self).brick_dim as int)),
                ),
            old(self).nodes@[node_key as int] is Internal ==> forall|s: int, x: int, y: int, z: int|
                0 <= s < 64 && 0 <= old(self).child_key(node_key as int, s) < old(self).nodes@.len()
                && 0 <= x < old(self).brick_dim && 0 <= y < old(self).brick_dim && 0 <= z < old(self).brick_dim
                ==> #[trigger] final(self).cell_resampled_from(
                    old(self).child_key(node_key as int, s),
                    x,
                    y,
                    z,
                    old(self).mip_entry(old(self).child_key(node_key as int, s), flat_index(x, y, z, old(self).brick_dim as int)),
                ),
            forall|p: V3c<u32>, d: nat, x: int, y: int, z: int|
                cube_contains(*node_bounds, p) && 0 <= old(self).path_from(node_key as int, p, d) < old(self).nodes@.len()
                && 0 <= x < old(self).brick_dim && 0 <= y < old(self).brick_dim && 0 <= z < old(self).brick_dim
                ==> #[trigger] final(self).cell_resampled_from(
                    old(self).path_from(node_key as int, p, d),
                    x,
                    y,
                    z,
                    old(self).mip_entry(old(self).path_from(node_key as int, p, d), flat_index(x, y, z, old(self).brick_dim as int)),
                ),
        decreases node_bounds.size,
    {
        proof {
            assert(old(self).node_wf(node_key as int));
            lemma_level_size(self.brick_dim as nat, old(self).node_levels@[node_key as int]);
            assert(old(self).voxel_color_palette@ =~= self.voxel_color_palette@.subrange(0, old(self).voxel_color_palette@.len() as int));
        }
        let is_internal = match &self.nodes[node_key] {
            NodeContent::Internal(_) => true,
            _ => false,
        };
        if is_internal {
            let mut s: u8 = 0;
            while s < 64
                invariant
                    self.wf(),
                    old(self).wf(),
                    self.bricks_fit(),
                    self.same_voxels(old(self)),
                    node_key < self.nodes@.len(),
                    *node_bounds == self.node_bounds@[node_key as int],
                    cube_splittable(*node_bounds),
                    cube_fits(*node_bounds),
                    s <= 64,
                    forall|j: int| 0 <= j < old(self).nodes@.len() && old(self).node_levels@[j] >= old(self).node_levels@[node_key as int]
                        ==> #[trigger] self.node_mips@[j] == old(self).node_mips@[j],
                    forall|j: int| 0 <= j < old(self).nodes@.len() && !cube_within(old(self).node_bounds@[j], *node_bounds)
                        ==> #[trigger] self.node_mips@[j] == old(self).node_mips@[j],
                    forall|j: int, t: int| 0 <= j < old(self).nodes@.len() && s <= t < 64
                        && #[trigger] cube_within(old(self).node_bounds@[j], child_cube(*node_bounds, t))
                        ==> self.node_mips@[j] == old(self).node_mips@[j],
                    forall|s2: int, x: int, y: int, z: int|
                        0 <= s2 < s && 0 <= old(self).child_key(node_key as int, s2) < old(self).nodes@.len()
                        && 0 <= x < old(self).brick_dim && 0 <= y < old(self).brick_dim && 0 <= z < old(self).brick_dim
                        ==> #[trigger] self.cell_resampled_from(
                            old(self).child_key(node_key as int, s2),
                            x,
                            y,
                            z,
                            old(self).mip_entry(old(self).child_key(node_key as int, s2), flat_index(x, y, z, old(self).brick_dim as int)),
                        ),
                    forall|s2: int, p: V3c<u32>, d: nat, x: int, y: int, z: int|
                        0 <= s2 < s && 0 <= old(self).child_key(node_key as int, s2) < old(self).nodes@.len()
                        && cube_contains(child_cube(*node_bounds, s2), p)
                        && 0 <= old(self).path_from(old(self).child_key(node_key as int, s2), p, d) < old(self).nodes@.len()
                        && 0 <= x < old(self).brick_dim && 0 <= y < old(self).brick_dim && 0 <= z < old(self).brick_dim
                        ==> #[trigger] self.cell_resampled_from(
                            old(self).path_from(old(self).child_key(node_key as int, s2), p, d),
                            x,
                            y,
                            z,
                            old(self).mip_entry(old(self).path_from(old(self).child_key(node_key as int, s2), p, d), flat_index(x, y, z, old(self).brick_dim as int)),
                        ),
                decreases 64 - s,
            {
                let ghost start = *self;
                let c = self.child(node_key, s);
                if c < self.nodes.len() {
                    let non_empty = match &self.nodes[c] {
                        NodeContent::Nothing => false,
                        _ => true,
                    };
                    proof {
                        assert(self.node_wf(node_key as int));
                        assert(self.node_bounds@[c as int] == child_cube(*node_bounds, s as int));
                        assert(cube_within(old(self).node_bounds@[c as int], child_cube(*node_bounds, s as int)));
                        assert(self.node_mips@[c as int] == old(self).node_mips@[c as int]);
                    }
                    if non_empty {
                        let cb = node_bounds.child_bounds_for(s);
                        let ghost before = *self;
                        proof {
                            assert(self.node_levels@[c as int] + 1 == self.node_levels@[node_key as int]);
                        }
                        self.recalculate_subtree_mips(c, &cb);
                        proof {
                            assert(before.voxel_color_palette@ == self.voxel_color_palette@.subrange(0, before.voxel_color_palette@.len() as int));
                            assert(old(self).voxel_color_palette@ =~= self.voxel_color_palette@.subrange(0, old(self).voxel_color_palette@.len() as int));
                            assert(self.same_voxels(&start));
                        }
                    }
                    proof {
                        let dim = old(self).brick_dim as int;
                        assert forall|x: int, y: int, z: int| 0 <= x < dim && 0 <= y < dim && 0 <= z < dim
                            implies #[trigger] self.cell_resampled_from(c as int, x, y, z,
                                old(self).mip_entry(c as int, flat_index(x, y, z, dim))) by {
                            assert(start.mip_entry(c as int, flat_index(x, y, z, dim)) == old(self).mip_entry(c as int, flat_index(x, y, z, dim)));
                        }
                        let ci = c as int;
                        assert forall|p: V3c<u32>, d: nat, x: int, y: int, z: int|
                            cube_contains(child_cube(*node_bounds, s as int), p)
                            && 0 <= old(self).path_from(ci, p, d) < old(self).nodes@.len()
                            && 0 <= x < dim && 0 <= y < dim && 0 <= z < dim
                            implies #[trigger] self.cell_resampled_from(old(self).path_from(ci, p, d), x, y, z,
                                old(self).mip_entry(old(self).path_from(ci, p, d), flat_index(x, y, z, dim))) by {
                            let node = old(self).path_from(ci, p, d);
                            old(self).lemma_path_from_within(ci, p, d);
                            if non_empty {
                                Self::lemma_path_from_same(&start, old(self), ci, p, d);
                                assert(cube_within(old(self).node_bounds@[node], child_cube(*node_bounds, s as int)));
                                assert(start.mip_entry(node, flat_index(x, y, z, dim)) == old(self).mip_entry(node, flat_index(x, y, z, dim)));
                            } else {
                                if d > 0 {
                                    old(self).lemma_path_from_front(ci, p, (d - 1) as nat);
                                    assert(((d - 1) as nat + 1) as nat == d);
                                }
                                assert(node == ci);
                            }
                        }
                    }
                }
                proof {
                    let k = node_key as int;
                    let b = *node_bounds;
                    let dim = old(self).brick_dim as int;
                    assert(start.voxel_color_palette@ =~= start.voxel_color_palette@.subrange(0, start.voxel_color_palette@.len() as int));
                    assert(self.same_voxels(&start));
                    lemma_child_within(b, s as int);
                    assert forall|j: int| 0 <= j < old(self).nodes@.len() && !cube_within(old(self).node_bounds@[j], child_cube(b, s as int))
                        implies #[trigger] self.node_mips@[j] == start.node_mips@[j] by {
                    }
                    assert forall|j: int, t: int| 0 <= j < old(self).nodes@.len() && s + 1 <= t < 64
                        && #[trigger] cube_within(old(self).node_bounds@[j], child_cube(b, t))
                        implies self.node_mips@[j] == old(self).node_mips@[j] by {
                        start.lemma_inside_one_sibling(k, s as int, t, j);
                    }
                    assert forall|s2: int, x: int, y: int, z: int|
                        0 <= s2 < s + 1 && 0 <= old(self).child_key(k, s2) < old(self).nodes@.len()
                        && 0 <= x < dim && 0 <= y < dim && 0 <= z < dim
                        implies #[trigger] self.cell_resampled_from(old(self).child_key(k, s2), x, y, z,
                            old(self).mip_entry(old(self).child_key(k, s2), flat_index(x, y, z, dim))) by {
                        let c2 = old(self).child_key(k, s2);
                        if s2 < s {
                            assert(start.node_wf(k));
                            assert(start.node_bounds@[c2] == child_cube(b, s2));
                            start.lemma_inside_one_sibling(k, s as int, s2, c2);
                            assert forall|u: int| 0 <= u < 64 && 0 <= start.child_key(c2, u) < start.nodes@.len() && start.child_key(c2, u) != c2
                                implies #[trigger] self.node_mips@[start.child_key(c2, u)] == start.node_mips@[start.child_key(c2, u)] by {
                                let cu = start.child_key(c2, u);
                                start.lemma_child_node_within(c2, u);
                                start.lemma_inside_one_sibling(k, s as int, s2, cu);
                            }
                            Self::lemma_resampled_kept(&start, self, c2, x, y, z,
                                old(self).mip_entry(c2, flat_index(x, y, z, dim)));
                        }
                    }
                    assert forall|s2: int, p: V3c<u32>, d: nat, x: int, y: int, z: int|
                        0 <= s2 < s + 1 && 0 <= old(self).child_key(k, s2) < old(self).nodes@.len()
                        && cube_contains(child_cube(b, s2), p)
                        && 0 <= old(self).path_from(old(self).child_key(k, s2), p, d) < old(self).nodes@.len()
                        && 0 <= x < dim && 0 <= y < dim && 0 <= z < dim
                        implies #[trigger] self.cell_resampled_from(old(self).path_from(old(self).child_key(k, s2), p, d), x, y, z,
                            old(self).mip_entry(old(self).path_from(old(self).child_key(k, s2), p, d), flat_index(x, y, z, dim))) by {
                        let c2 = old(self).child_key(k, s2);
                        if s2 < s {
                            let node = old(self).path_from(c2, p, d);
                            assert(start.node_wf(k));
                            assert(start.node_bounds@[c2] == child_cube(b, s2));
                            old(self).lemma_path_from_within(c2, p, d);
                            Self::lemma_kept_outside(&start, self, k, s as int, s2, node);
                            Self::lemma_resampled_kept(&start, self, node, x, y, z,
                                old(self).mip_entry(node, flat_index(x, y, z, dim)));
                        }
                    }
                }
                s += 1;
            }
        }
        let ghost before = *self;
        proof {
            assert(before.node_mips@[node_key as int] == old(self).node_mips@[node_key as int]);
            assert forall|f: int| #[trigger] before.mip_entry(node_key as int, f) == old(self).mip_entry(node_key as int, f) by {}
        }
        self.recalculate_mip(node_key, node_bounds);
        proof {
            assert(before.voxel_color_palette@ == self.voxel_color_palette@.subrange(0, before.voxel_color_palette@.len() as int));
            assert(old(self).voxel_color_palette@ =~= self.voxel_color_palette@.subrange(0, old(self).voxel_color_palette@.len() as int));
            let dim = old(self).brick_dim as int;
            let k = node_key as int;
            if old(self).nodes@[k] is Internal {
                assert forall|s2: int, x: int, y: int, z: int|
                    0 <= s2 < 64 && 0 <= old(self).child_key(k, s2) < old(self).nodes@.len()
                    && 0 <= x < dim && 0 <= y < dim && 0 <= z < dim
                    implies #[trigger] self.cell_resampled_from(old(self).child_key(k, s2), x, y, z,
                        old(self).mip_entry(old(self).child_key(k, s2), flat_index(x, y, z, dim))) by {
                    let c2 = old(self).child_key(k, s2);
                    before.lemma_child_node_within(k, s2);
                    assert forall|u: int| 0 <= u < 64 && 0 <= before.child_key(c2, u) < before.nodes@.len() && before.child_key(c2, u) != c2
                        implies #[trigger] self.node_mips@[before.child_key(c2, u)] == before.node_mips@[before.child_key(c2, u)] by {
                        before.lemma_child_node_within(c2, u);
                    }
                    Self::lemma_resampled_kept(&before, self, c2, x, y, z,
                        old(self).mip_entry(c2, flat_index(x, y, z, dim)));
                }
            }
            assert forall|p: V3c<u32>, d: nat, x: int, y: int, z: int|
                cube_contains(*node_bounds, p) && 0 <= old(self).path_from(k, p, d) < old(self).nodes@.len()
                && 0 <= x < dim && 0 <= y < dim && 0 <= z < dim
                implies #[trigger] self.cell_resampled_from(old(self).path_from(k, p, d), x, y, z,
                    old(self).mip_entry(old(self).path_from(k, p, d), flat_index(x, y, z, dim))) by {
                let node = old(self).path_from(k, p, d);
                if d == 0 {
                    assert(node == k);
                    assert(self.cell_resampled_from(k, x, y, z, before.mip_entry(k, flat_index(x, y, z, before.brick_dim as int))));
                    assert(before.mip_entry(k, flat_index(x, y, z, dim)) == old(self).mip_entry(k, flat_index(x, y, z, dim)));
                } else {
                    old(self).lemma_path_from_front(k, p, (d - 1) as nat);
                    assert(((d - 1) as nat + 1) as nat == d);
                    let b = *node_bounds;
                    assert(old(self).node_wf(k));
                    lemma_level_size(old(self).brick_dim as nat, old(self).node_levels@[k]);
                    lemma_sectant_of(b, p);
                    let sct = sectant_of(b, p);
                    let c = old(self).child_key(k, sct);
                    assert(node == old(self).path_from(c, p, (d - 1) as nat));
                    assert(old(self).node_bounds@[c] == child_cube(b, sct)) by {
                        match old(self).node_children@[k] {
                            NodeChildren::Children(v) => {
                                assert(v@[sct] == EMPTY_MARKER || (0 < v@[sct] < old(self).nodes@.len()
                                    && old(self).node_bounds@[v@[sct] as int] == child_cube(b, sct)));
                            },
                            _ => {},
                        }
                    }
                    old(self).lemma_path_from_within(c, p, (d - 1) as nat);
                    old(self).lemma_child_node_within(k, sct);
                    assert(before.cell_resampled_from(node, x, y, z, old(self).mip_entry(node, flat_index(x, y, z, dim))));
                    assert forall|u: int| 0 <= u < 64 && 0 <= before.child_key(node, u) < before.nodes@.len() && before.child_key(node, u) != node
                        implies #[trigger] self.node_mips@[before.child_key(node, u)] == before.node_mips@[before.child_key(node, u)] by {
                        before.lemma_child_node_within(node, u);
                    }
                    Self::lemma_resampled_kept(&before, self, node, x, y, z,
                        old(self).mip_entry(node, flat_index(x, y, z, dim)));
                }
            }
            assert forall|x: int, y: int, z: int|
                0 <= x < dim && 0 <= y < dim && 0 <= z < dim implies #[trigger] self.cell_resampled_from(
                    node_key as int,
                    x,
                    y,
                    z,
                    old(self).mip_entry(node_key as int, flat_index(x, y, z, dim)),
                ) by {
                assert(before.mip_entry(node_key as int, flat_index(x, y, z, dim)) == old(self).mip_entry(node_key as int, flat_index(x, y, z, dim)));
                assert(self.cell_resampled_from(node_key as int, x, y, z, before.mip_entry(node_key as int, flat_index(x, y, z, before.brick_dim as int))));
            }
        }
    }

    /// The palette index stored in a node's MIP map at the given cell
    pub closed spec fn mip_voxel(&self, key: int, x: int, y: int, z: int) -> u32 {
        self.mip_entry(key, flat_index(x, y, z, self.brick_dim as int))
    }
}

impl<T> BoxTree<T> {
    /// The trees are equal in everything but the MIP map strategy
    pub closed spec fn same_but_strategy(&self, old: &Self) -> bool {
        &&& self.nodes@ == old.nodes@
        &&& self.node_children@ == old.node_children@
        &&& self.node_mips@ == old.node_mips@
        &&& self.node_bounds@ == old.node_bounds@
        &&& self.node_levels@ == old.node_levels@
        &&& self.brick_dim == old.brick_dim
        &&& self.boxtree_size == old.boxtree_size
        &&& self.auto_simplify == old.auto_simplify
        &&& self.voxel_data_palette@ == old.voxel_data_palette@
        &&& self.voxel_color_palette@ == old.voxel_color_palette@
        &&& self.map_to_color_index_in_palette@ == old.map_to_color_index_in_palette@
    }

    /// Trees equal in everything but the MIP map strategy hold the same nodes, MIP maps and
    /// palettes
    pub proof fn lemma_same_but_strategy(t1: &Self, t2: &Self)
        requires
            t2.same_but_strategy(t1),
        ensures
            t2.same_mips(t1),
            t2.node_count() == t1.node_count(),
            t2.mips_empty() == t1.mips_empty(),
            t2.root_is_nothing() == t1.root_is_nothing(),
            t2.colors() == t1.colors(),
            t2.datas() == t1.datas(),
            t2.spec_size() == t1.spec_size(),
            t2.spec_brick_dim() == t1.spec_brick_dim(),
    {
        assert forall|s: int, x: int, y: int, z: int| #[trigger] t2.mip_sample(s, x, y, z) == t1.mip_sample(s, x, y, z) by {
            assert(t2.root_mip_key(s) == t1.root_mip_key(s));
        }
    }

    /// Empty MIP maps hold nothing at any cell
    pub proof fn lemma_mips_empty_samples(&self)
        requires
            self.wf(),
            self.mips_empty(),
        ensures
            forall|s: int, x: int, y: int, z: int| #[trigger] self.mip_sample(s, x, y, z) == (None::<Albedo>, None::<T>),
    {
        lemma_pix_empty();
        assert(self.node_wf(0));
        assert forall|s: int, x: int, y: int, z: int| #[trigger] self.mip_sample(s, x, y, z) == (None::<Albedo>, None::<T>) by {
            let key = self.root_mip_key(s);
            if 0 <= key < self.nodes@.len() {
                if key < self.node_mips@.len() {
                    assert(self.node_mips@[key] is Empty);
                }
            }
        }
    }

    proof fn lemma_same_but_strategy_wf(t1: &Self, t2: &Self)
        requires
            t1.wf(),
            t2.same_but_strategy(t1),
        ensures
            t2.wf(),
            forall|p: V3c<u32>| #[trigger] t2.entry_at(p) == t1.entry_at(p),
    {
        assert forall|k: int| 0 <= k < t2.nodes@.len() implies t2.node_wf(k) by {
            assert(t1.node_wf(k));
            Self::lemma_node_wf_stable(t1, t2, k);
        }
        assert forall|p: V3c<u32>| #[trigger] t2.entry_at(p) == t1.entry_at(p) by {
            if cube_contains(t1.root_cube(), p) {
                assert(t1.node_wf(0));
                Self::lemma_voxel_frame_size(t1, t2, 0, t1.root_cube(), p);
            }
        }
    }

    /// Sets the resampling method of a MIP level
    pub(crate) fn set_strategy_method(&mut self, mip_level: usize, method: MIPResamplingMethods)
        requires
            old(self).wf(),
        ensures
            final(self).wf(),
            final(self).same_but_strategy(old(self)),
            final(self).strategy().spec_enabled() == old(self).strategy().spec_enabled(),
            final(self).strategy().methods() == old(self).strategy().methods().insert(mip_level, crate::boxtree::types::clamped_method(method)),
            final(self).strategy().thresholds() == old(self).strategy().thresholds(),
    {
        self.mip_map_strategy.set_method_at_internal(mip_level, method);
        proof {
            Self::lemma_same_but_strategy_wf(old(self), self);
        }
    }

    /// Sets the color similarity threshold of a MIP level
    pub(crate) fn set_strategy_threshold(&mut self, mip_level: usize, thr: u32)
        requires
            old(self).wf(),
        ensures
            final(self).wf(),
            final(self).same_but_strategy(old(self)),
            final(self).strategy().spec_enabled() == old(self).strategy().spec_enabled(),
            final(self).strategy().methods() == old(self).strategy().methods(),
            final(self).strategy().thresholds() == old(self).strategy().thresholds().insert(mip_level, crate::boxtree::strategy::clamped_threshold(thr)),
    {
        self.mip_map_strategy.set_color_similarity_thr_internal(mip_level, thr);
        proof {
            Self::lemma_same_but_strategy_wf(old(self), self);
        }
    }

    /// Resets the MIP map strategy to its default
    pub(crate) fn reset_strategy(&mut self)
        requires
            old(self).wf(),
        ensures
            final(self).wf(),
            final(self).same_but_strategy(old(self)),
            !final(self).strategy().spec_enabled(),
            final(self).strategy().methods() == crate::boxtree::strategy::default_methods(),
            final(self).strategy().thresholds() == crate::boxtree::strategy::default_thresholds(),
    {
        self.mip_map_strategy = MIPMapStrategy::default();
        proof {
            Self::lemma_same_but_strategy_wf(old(self), self);
        }
    }

    /// Enables or disables MIP maps without touching the MIP maps themselves
    pub(crate) fn set_mips_enabled(&mut self, enabled: bool)
        requires
            old(self).wf(),
        ensures
            final(self).wf(),
            final(self).same_but_strategy(old(self)),
            final(self).strategy().spec_enabled() == enabled,
            final(self).strategy().methods() == old(self).strategy().methods(),
            final(self).strategy().thresholds() == old(self).strategy().thresholds(),
    {
        self.mip_map_strategy.set_enabled_internal(enabled);
        proof {
            Self::lemma_same_but_strategy_wf(old(self), self);
        }
    }

    /// Recalculates the MIP maps for the whole content of the tree
    pub(crate) fn recalculate_all_mips(&mut self)
        requires
            old(self).wf(),
            old(self).bricks_fit(),
        ensures
            final(self).wf(),
            final(self).same_voxels(old(self)),
            forall|x: int, y: int, z: int|
                0 <= x < old(self).brick_dim && 0 <= y < old(self).brick_dim && 0 <= z < old(self).brick_dim
                ==> #[trigger] final(self).mip_cell_resampled(0, x, y, z),
            old(self).nodes@[0] is Internal ==> forall|s: int, x: int, y: int, z: int|
                0 <= s < 64 && 0 <= old(self).child_key(0, s) < old(self).nodes@.len()
                && 0 <= x < old(self).brick_dim && 0 <= y < old(self).brick_dim && 0 <= z < old(self).brick_dim
                ==> #[trigger] final(self).mip_cell_resampled(old(self).child_key(0, s), x, y, z),
            forall|p: V3c<u32>, d: nat, x: int, y: int, z: int|
                cube_contains(old(self).root_cube(), p) && 0 <= old(self).path_key(p, d) < old(self).nodes@.len()
                && 0 <= x < old(self).brick_dim && 0 <= y < old(self).brick_dim && 0 <= z < old(self).brick_dim
                ==> #[trigger] final(self).mip_cell_resampled(old(self).path_key(p, d), x, y, z),
            !old(self).mip_map_strategy.spec_enabled() || old(self).nodes@[0] is Nothing
                ==> final(self).mips_empty() && final(self).voxel_color_palette@ == old(self).voxel_color_palette@,
    {
        let n = self.nodes.len();
        let mut mips: Vec<BrickData> = Vec::new();
        let mut i: usize = 0;
        while i < n
            invariant
                i <= n,
                mips@.len() == i,
                forall|j: int| 0 <= j < i ==> #[trigger] mips@[j] == BrickData::Empty,
            decreases n - i,
        {
            mips.push(BrickData::Empty);
            i += 1;
        }
        self.node_mips = mips;
        proof {
            assert forall|k: int| 0 <= k < self.nodes@.len() implies self.node_wf(k) by {
                assert(old(self).node_wf(k));
            }
            assert(old(self).voxel_color_palette@ =~= self.voxel_color_palette@.subrange(0, old(self).voxel_color_palette@.len() as int));
        }
        let root_nothing = match &self.nodes[0] {
            NodeContent::Nothing => true,
            _ => false,
        };
        if !self.mip_map_strategy.is_enabled() || root_nothing {
            proof {
                let dim = old(self).brick_dim as int;
                assert forall|x: int, y: int, z: int|
                    0 <= x < dim && 0 <= y < dim && 0 <= z < dim implies #[trigger] self.mip_cell_resampled(0, x, y, z) by {
                    assert(!self.mip_updates(0, self.node_bounds@[0], cell_corner(self.node_bounds@[0], dim, x, y, z)));
                }
                assert forall|p: V3c<u32>, d: nat, x: int, y: int, z: int|
                    cube_contains(old(self).root_cube(), p) && 0 <= old(self).path_key(p, d) < old(self).nodes@.len()
                    && 0 <= x < dim && 0 <= y < dim && 0 <= z < dim
                    implies #[trigger] self.mip_cell_resampled(old(self).path_key(p, d), x, y, z) by {
                    let node = old(self).path_key(p, d);
                    if self.mip_map_strategy.spec_enabled() {
                        old(self).lemma_path_key_nothing(p, d);
                    }
                    assert(!self.mip_updates(node, self.node_bounds@[node], cell_corner(self.node_bounds@[node], dim, x, y, z)));
                }
                assert(self.mips_empty());
            }
            return;
        }
        let root = Cube::root_bounds(self.boxtree_size);
        let ghost before = *self;
        proof {
            assert(self.node_wf(0));
        }
        self.recalculate_subtree_mips(0, &root);
        proof {
            assert(before.voxel_color_palette@ == self.voxel_color_palette@.subrange(0, before.voxel_color_palette@.len() as int));
            assert(old(self).voxel_color_palette@ =~= self.voxel_color_palette@.subrange(0, old(self).voxel_color_palette@.len() as int));
            let dim = old(self).brick_dim as int;
            assert forall|x: int, y: int, z: int|
                0 <= x < dim && 0 <= y < dim && 0 <= z < dim implies #[trigger] self.mip_cell_resampled(0, x, y, z) by {
                assert(before.node_mips@[0] == BrickData::Empty);
                assert(before.mip_entry(0, flat_index(x, y, z, dim)) == EMPTY_MARKER);
                assert(self.cell_resampled_from(0, x, y, z, before.mip_entry(0, flat_index(x, y, z, before.brick_dim as int))));
            }
            assert forall|p: V3c<u32>, d: nat, x: int, y: int, z: int|
                cube_contains(old(self).root_cube(), p) && 0 <= old(self).path_key(p, d) < old(self).nodes@.len()
                && 0 <= x < dim && 0 <= y < dim && 0 <= z < dim
                implies #[trigger] self.mip_cell_resampled(old(self).path_key(p, d), x, y, z) by {
                old(self).lemma_path_key_from(p, d);
                Self::lemma_path_from_same(&before, old(self), 0, p, d);
                let node = old(self).path_key(p, d);
                assert(before.node_mips@[node] == BrickData::Empty);
                assert(before.mip_entry(node, flat_index(x, y, z, dim)) == EMPTY_MARKER);
                assert(self.cell_resampled_from(node, x, y, z, before.mip_entry(node, flat_index(x, y, z, before.brick_dim as int))));
            }
            if old(self).nodes@[0] is Internal {
                assert forall|s: int, x: int, y: int, z: int|
                    0 <= s < 64 && 0 <= old(self).child_key(0, s) < old(self).nodes@.len()
                    && 0 <= x < dim && 0 <= y < dim && 0 <= z < dim
                    implies #[trigger] self.mip_cell_resampled(old(self).child_key(0, s), x, y, z) by {
                    let c = old(self).child_key(0, s);
                    assert(before.child_key(0, s) == c);
                    assert(before.node_mips@[c] == BrickData::Empty);
                    assert(before.mip_entry(c, flat_index(x, y, z, dim)) == EMPTY_MARKER);
                    assert(self.cell_resampled_from(c, x, y, z, before.mip_entry(c, flat_index(x, y, z, before.brick_dim as int))));
                }
            }
        }
    }

    /// Object to set the MIP map strategy for each MIP level inside the boxtree
    pub fn albedo_mip_map_resampling_strategy(&mut self) -> (r: StrategyUpdater<'_, T>)
        ensures
            *r.0 == *old(self),
            *final(self) == *final(r.0),
    {
        StrategyUpdater(self)
    }
}

impl<T> BoxTree<T> {
    /// The node whose MIP map `sample_root_mip` reads for a sectant: the root for `OOB_SECTANT`,
    /// else the root's child at that sectant
    pub closed spec fn root_mip_key(&self, sectant: int) -> int {
        if sectant == OOB_SECTANT {
            0
        } else {
            self.child_key(0, sectant)
        }
    }

    /// What the MIP map of the root (sectant `OOB_SECTANT`) or of one of its children holds at a cell
    pub closed spec fn mip_sample(&self, sectant: int, x: int, y: int, z: int) -> (Option<Albedo>, Option<T>) {
        let key = self.root_mip_key(sectant);
        if 0 <= key < self.nodes@.len() {
            pix_parts(self.mip_voxel(key, x, y, z), self.voxel_color_palette@, self.voxel_data_palette@)
        } else {
            (None, None)
        }
    }

    /// The trees hold the same MIP maps at the root and its children
    pub open spec fn same_mips(&self, other: &Self) -> bool {
        forall|s: int, x: int, y: int, z: int| #[trigger] self.mip_sample(s, x, y, z) == other.mip_sample(s, x, y, z)
    }
}

impl<'a, T> StrategyUpdater<'a, T> {
    /// Resets the strategy for MIP maps during resample operations
    pub fn reset(self) -> (r: Self)
        requires
            self.0.wf(),
        ensures
            r.0.wf(),
            *final(self.0) == *final(r.0),
            r.0.same_entries(old(self.0)),
            r.0.same_mips(old(self.0)),
            r.0.same_but_strategy(old(self.0)),
            r.0.spec_size() == old(self.0).spec_size(),
            !r.0.strategy().spec_enabled(),
            r.0.strategy().methods() == crate::boxtree::strategy::default_methods(),
            r.0.strategy().thresholds() == crate::boxtree::strategy::default_thresholds(),
    {
        let s = self;
        let ghost before = *s.0;
        s.0.reset_strategy();
        proof {
            BoxTree::<T>::lemma_same_but_strategy_wf(&before, &*s.0);
        }
        s
    }
}

impl<'a, T> StrategyUpdater<'a, T> {
    /// Provides the strategy for a MIP level during resample operations
    pub fn get_method_at(&self, mip_level: usize) -> (r: MIPResamplingMethods)
        ensures
            r == old(self.0).strategy().method_at(mip_level),
    {
        self.0.mip_map_strategy.get_method_at(mip_level)
    }

    /// Color similarity threshold of a MIP level, in thousandths
    pub fn get_new_color_similarity_at(&self, mip_level: usize) -> (r: u32)
        ensures
            r == old(self.0).strategy().threshold_at(mip_level),
    {
        self.0.mip_map_strategy.get_new_color_similarity_at(mip_level)
    }

    /// Sets the strategy for a MIP level during resample operations
    /// In case method has a parameter, it is clamped to `0..=1000`
    pub fn set_method_at(self, mip_level: usize, method: MIPResamplingMethods) -> (r: Self)
        requires
            self.0.wf(),
        ensures
            r.0.wf(),
            *final(self.0) == *final(r.0),
            r.0.same_entries(old(self.0)),
            r.0.same_mips(old(self.0)),
            r.0.same_but_strategy(old(self.0)),
            r.0.spec_size() == old(self.0).spec_size(),
            r.0.strategy().spec_enabled() == old(self.0).strategy().spec_enabled(),
            r.0.strategy().methods() == old(self.0).strategy().methods().insert(mip_level, crate::boxtree::types::clamped_method(method)),
            r.0.strategy().thresholds() == old(self.0).strategy().thresholds(),
    {
        let s = self;
        let ghost before = *s.0;
        s.0.set_strategy_method(mip_level, method);
        proof {
            BoxTree::<T>::lemma_same_but_strategy_wf(&before, &*s.0);
        }
        s
    }

    /// Sets the color similarity threshold of a MIP level (thousandths, clamped to at most 1000)
    pub fn set_color_similarity_thr_at(self, mip_level: usize, similarity_thr: u32) -> (r: Self)
        requires
            self.0.wf(),
        ensures
            r.0.wf(),
            *final(self.0) == *final(r.0),
            r.0.same_entries(old(self.0)),
            r.0.same_mips(old(self.0)),
            r.0.same_but_strategy(old(self.0)),
            r.0.spec_size() == old(self.0).spec_size(),
            r.0.strategy().spec_enabled() == old(self.0).strategy().spec_enabled(),
            r.0.strategy().methods() == old(self.0).strategy().methods(),
            r.0.strategy().thresholds() == old(self.0).strategy().thresholds().insert(mip_level, crate::boxtree::strategy::clamped_threshold(similarity_thr)),
    {
        let s = self;
        let ghost before = *s.0;
        s.0.set_strategy_threshold(mip_level, similarity_thr);
        proof {
            BoxTree::<T>::lemma_same_but_strategy_wf(&before, &*s.0);
        }
        s
    }

    /// Sets the strategy for each given MIP level, in order
    pub fn set_method(self, levels: Vec<(usize, MIPResamplingMethods)>) -> (r: Self)
        requires
            self.0.wf(),
        ensures
            r.0.wf(),
            *final(self.0) == *final(r.0),
            r.0.same_entries(old(self.0)),
            r.0.same_mips(old(self.0)),
            r.0.same_but_strategy(old(self.0)),
            r.0.spec_size() == old(self.0).spec_size(),
            r.0.strategy().spec_enabled() == old(self.0).strategy().spec_enabled(),
            r.0.strategy().methods() == crate::boxtree::strategy::methods_after(old(self.0).strategy().methods(), levels@),
            r.0.strategy().thresholds() == old(self.0).strategy().thresholds(),
    {
        let mut chain = self;
        let mut i: usize = 0;
        while i < levels.len()
            invariant
                i <= levels.len(),
                chain.0.wf(),
                *final(self.0) == *final(chain.0),
                chain.0.same_entries(old(self.0)),
                chain.0.same_mips(old(self.0)),
                chain.0.same_but_strategy(old(self.0)),
                chain.0.strategy().spec_enabled() == old(self.0).strategy().spec_enabled(),
                chain.0.strategy().methods() == crate::boxtree::strategy::methods_after(old(self.0).strategy().methods(), levels@.subrange(0, i as int)),
                chain.0.strategy().thresholds() == old(self.0).strategy().thresholds(),
            decreases levels.len() - i,
        {
            let (mip_level, method) = levels[i];
            chain = chain.set_method_at(mip_level, method);
            assert(levels@.subrange(0, i + 1).drop_last() == levels@.subrange(0, i as int));
            i += 1;
        }
        assert(levels@.subrange(0, levels.len() as int) == levels@);
        chain
    }
}

impl<'a, T> StrategyUpdater<'a, T> {
    /// Recalculates MIPs for the whole content of the boxtree
    pub fn recalculate_mips(&mut self)
        requires
            old(self).0.wf(),
            old(self).0.bricks_fit(),
        ensures
            !old(self).0.strategy().spec_enabled() || old(self).0.root_is_nothing()
                ==> final(self).0.mips_empty() && final(self).0.colors() == old(self).0.colors(),
            final(self).0.node_count() == old(self).0.node_count(),
            final(self).0.root_is_nothing() == old(self).0.root_is_nothing(),
            final(self).0.spec_size() == old(self).0.spec_size(),
            final(self).0.spec_brick_dim() == old(self).0.spec_brick_dim(),
            final(self).0.strategy() == old(self).0.strategy(),
            final(self).0.wf(),
            final(self).0.same_content(old(self).0),
            *final(final(self).0) == *final(old(self).0),
            forall|x: int, y: int, z: int|
                0 <= x < old(self).0.spec_brick_dim() && 0 <= y < old(self).0.spec_brick_dim() && 0 <= z < old(self).0.spec_brick_dim()
                ==> #[trigger] final(self).0.mip_cell_resampled(0, x, y, z),
            !old(self).0.root_is_nothing() && !old(self).0.node_is_leaf(0) && !old(self).0.node_is_uniform_leaf(0)
                ==> forall|s: int, x: int, y: int, z: int|
                0 <= s < 64 && 0 <= final(self).0.root_mip_key(s) < final(self).0.node_count()
                && 0 <= x < old(self).0.spec_brick_dim() && 0 <= y < old(self).0.spec_brick_dim() && 0 <= z < old(self).0.spec_brick_dim()
                ==> #[trigger] final(self).0.mip_cell_resampled(final(self).0.root_mip_key(s), x, y, z),
            forall|p: V3c<u32>, d: nat, x: int, y: int, z: int|
                cube_contains(final(self).0.root_cube(), p) && 0 <= final(self).0.path_key(p, d) < final(self).0.node_count()
                && 0 <= x < old(self).0.spec_brick_dim() && 0 <= y < old(self).0.spec_brick_dim() && 0 <= z < old(self).0.spec_brick_dim()
                ==> #[trigger] final(self).0.mip_cell_resampled(final(self).0.path_key(p, d), x, y, z),
    {
        let ghost before = *self.0;
        self.0.recalculate_all_mips();
        proof {
            BoxTree::<T>::lemma_same_voxels_entries(&before, &*self.0);
            assert forall|p: V3c<u32>, d: nat, x: int, y: int, z: int|
                cube_contains(self.0.root_cube(), p) && 0 <= self.0.path_key(p, d) < self.0.node_count()
                && 0 <= x < before.spec_brick_dim() && 0 <= y < before.spec_brick_dim() && 0 <= z < before.spec_brick_dim()
                implies #[trigger] self.0.mip_cell_resampled(self.0.path_key(p, d), x, y, z) by {
                BoxTree::<T>::lemma_path_same(&*self.0, &before, p, d);
            }
            if !before.root_is_nothing() && !before.node_is_leaf(0) && !before.node_is_uniform_leaf(0) {
                assert(before.nodes@[0] is Internal);
                assert forall|s: int, x: int, y: int, z: int|
                    0 <= s < 64 && 0 <= self.0.root_mip_key(s) < self.0.node_count()
                    && 0 <= x < before.spec_brick_dim() && 0 <= y < before.spec_brick_dim() && 0 <= z < before.spec_brick_dim()
                    implies #[trigger] self.0.mip_cell_resampled(self.0.root_mip_key(s), x, y, z) by {
                    assert(self.0.root_mip_key(s) == before.child_key(0, s));
                }
            }
        }
    }
}

impl<'a, T> StrategyUpdater<'a, T> {
    /// Enables or disables the MIP map feature for albedo values; MIP maps are recalculated
    /// when the feature is switched on and the tree holds anything
    pub fn switch_albedo_mip_maps(self, enabled: bool) -> (r: Self)
        requires
            self.0.wf(),
            self.0.bricks_fit(),
        ensures
            r.0.wf(),
            *final(self.0) == *final(r.0),
            r.0.same_entries(old(self.0)),
            r.0.strategy().spec_enabled() == enabled,
            r.0.spec_size() == old(self.0).spec_size(),
            r.0.spec_brick_dim() == old(self.0).spec_brick_dim(),
            r.0.strategy().methods() == old(self.0).strategy().methods(),
            r.0.strategy().thresholds() == old(self.0).strategy().thresholds(),
            !(enabled && !old(self.0).strategy().spec_enabled() && !old(self.0).root_is_nothing()) ==> r.0.same_mips(old(self.0))
                && r.0.same_but_strategy(old(self.0)),
            enabled && !old(self.0).strategy().spec_enabled() && !old(self.0).root_is_nothing() ==> forall|x: int, y: int, z: int|
                0 <= x < old(self.0).spec_brick_dim() && 0 <= y < old(self.0).spec_brick_dim() && 0 <= z < old(self.0).spec_brick_dim()
                ==> #[trigger] r.0.mip_cell_resampled(0, x, y, z),
            enabled && !old(self.0).strategy().spec_enabled() && !old(self.0).root_is_nothing()
                && !old(self.0).node_is_leaf(0) && !old(self.0).node_is_uniform_leaf(0) ==> forall|s: int, x: int, y: int, z: int|
                0 <= s < 64 && 0 <= r.0.root_mip_key(s) < r.0.node_count()
                && 0 <= x < old(self.0).spec_brick_dim() && 0 <= y < old(self.0).spec_brick_dim() && 0 <= z < old(self.0).spec_brick_dim()
                ==> #[trigger] r.0.mip_cell_resampled(r.0.root_mip_key(s), x, y, z),
            enabled && !old(self.0).strategy().spec_enabled() && !old(self.0).root_is_nothing() ==> forall|p: V3c<u32>, d: nat, x: int, y: int, z: int|
                cube_contains(r.0.root_cube(), p) && 0 <= r.0.path_key(p, d) < r.0.node_count()
                && 0 <= x < old(self.0).spec_brick_dim() && 0 <= y < old(self.0).spec_brick_dim() && 0 <= z < old(self.0).spec_brick_dim()
                ==> #[trigger] r.0.mip_cell_resampled(r.0.path_key(p, d), x, y, z),
    {
        let mut s = self;
        let ghost before = *s.0;
        let mips_on_previously = s.0.mip_map_strategy.is_enabled();
        s.0.set_mips_enabled(enabled);
        proof {
            BoxTree::<T>::lemma_same_but_strategy_wf(&before, &*s.0);
        }
        let root_empty = match &s.0.nodes[0] {
            NodeContent::Nothing => true,
            _ => false,
        };
        if enabled && mips_on_previously != enabled && !root_empty {
            let ghost mid = *s.0;
            s.recalculate_mips();
            proof {
                assert(s.0.same_entries(&mid));
            }
        }
        s
    }

    /// Sets the color similarity thresholds for each given MIP level, in order
    pub fn set_color_similarity_thr(self, levels: Vec<(usize, u32)>) -> (r: Self)
        requires
            self.0.wf(),
        ensures
            r.0.wf(),
            *final(self.0) == *final(r.0),
            r.0.same_entries(old(self.0)),
            r.0.same_mips(old(self.0)),
            r.0.same_but_strategy(old(self.0)),
            r.0.spec_size() == old(self.0).spec_size(),
            r.0.strategy().spec_enabled() == old(self.0).strategy().spec_enabled(),
            r.0.strategy().methods() == old(self.0).strategy().methods(),
            r.0.strategy().thresholds() == crate::boxtree::strategy::thresholds_after(old(self.0).strategy().thresholds(), levels@),
    {
        let mut chain = self;
        let mut i: usize = 0;
        while i < levels.len()
            invariant
                i <= levels.len(),
                chain.0.wf(),
                *final(self.0) == *final(chain.0),
                chain.0.same_entries(old(self.0)),
                chain.0.same_mips(old(self.0)),
                chain.0.same_but_strategy(old(self.0)),
                chain.0.strategy().spec_enabled() == old(self.0).strategy().spec_enabled(),
                chain.0.strategy().methods() == old(self.0).strategy().methods(),
                chain.0.strategy().thresholds() == crate::boxtree::strategy::thresholds_after(old(self.0).strategy().thresholds(), levels@.subrange(0, i as int)),
            decreases levels.len() - i,
        {
            let (mip_level, thr) = levels[i];
            chain = chain.set_color_similarity_thr_at(mip_level, thr);
            assert(levels@.subrange(0, i + 1).drop_last() == levels@.subrange(0, i as int));
            i += 1;
        }
        assert(levels@.subrange(0, levels.len() as int) == levels@);
        chain
    }

    /// Samples the MIP map of the root node (`OOB_SECTANT`), or of its child at the sectant
    /// * `position` - the cell inside the MIP map, each component in `0..brick_dim`
    pub fn sample_root_mip(&self, sectant: u8, position: &V3c<u32>) -> (r: BoxTreeEntry<'_, T>)
        requires
            self.0.wf(),
            sectant <= OOB_SECTANT,
            position.x < self.0.spec_brick_dim(),
            position.y < self.0.spec_brick_dim(),
            position.z < self.0.spec_brick_dim(),
        ensures
            entry_parts(r) == old(self.0).mip_sample(sectant as int, position.x as int, position.y as int, position.z as int),
    {
        let tree = &*self.0;
        let node_key: usize = if sectant == OOB_SECTANT {
            0
        } else {
            tree.child(0, sectant)
        };
        if node_key >= tree.nodes.len() {
            return BoxTreeEntry::Empty;
        }
        proof {
            assert(tree.node_wf(node_key as int));
        }
        match &tree.node_mips[node_key] {
            BrickData::Empty => {
                proof {
                    lemma_pix_empty();
                }
                BoxTreeEntry::Empty
            },
            BrickData::Solid(voxel) => crate::boxtree::pix_get_ref(*voxel, &tree.voxel_color_palette, &tree.voxel_data_palette),
            BrickData::Parted(brick) => {
                let d = tree.brick_dim as usize;
                let n = brick.len();
                assert(n == d * d * d);
                let flat_index = crate::spatial::flat_projection(position.x as usize, position.y as usize, position.z as usize, d);
                crate::boxtree::pix_get_ref(brick[flat_index], &tree.voxel_color_palette, &tree.voxel_data_palette)
            },
        }
    }
}

} // verus!
