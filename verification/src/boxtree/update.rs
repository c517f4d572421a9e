//! Writing voxels into the container.
use vstd::prelude::*;
use crate::spatial::{
    Cube, V3c, cube_contains, cube_fits, cube_splittable, child_cube, sectant_of, brick_index_of,
    lemma_sectant_of, lemma_child_cube, flat_index, axis_cell,
};
use crate::boxtree::types::{
    Albedo, BoxTree, BrickData, NodeChildren, NodeContent, OctreeError, EMPTY_MARKER, EMPTY_INDEX,
};
use crate::boxtree::{pow4, pix_valid, pix_parts, brick_valid, brick_voxel, lemma_level_size, lemma_level_bound, lemma_pix_parts_grow, lemma_pix_empty};

verus! {

/// Takes the element at `i` out of the vector, leaving `filler` in its place
pub(crate) fn vec_take<V>(v: &mut Vec<V>, i: usize, filler: V) -> (r: V)
    requires
        i < old(v)@.len(),
    ensures
        r == old(v)@[i as int],
        final(v)@ == old(v)@.update(i as int, filler),
{
    v.push(filler);
    v.swap_remove(i)
}

pub(crate) proof fn lemma_axis_cell_identity(o: int, dim: int)
    requires
        0 <= o < dim,
    ensures
        axis_cell(o, dim, dim) == o,
{
    vstd::arithmetic::div_mod::lemma_div_multiples_vanish(o, dim);
    assert(o * dim == dim * o) by (nonlinear_arith);
}

pub(crate) proof fn lemma_flat_injective(x1: int, y1: int, z1: int, x2: int, y2: int, z2: int, dim: int)
    requires
        0 <= x1 < dim,
        0 <= y1 < dim,
        0 <= z1 < dim,
        0 <= x2 < dim,
        0 <= y2 < dim,
        0 <= z2 < dim,
        flat_index(x1, y1, z1, dim) == flat_index(x2, y2, z2, dim),
    ensures
        x1 == x2 && y1 == y2 && z1 == z2,
{
    let a1 = y1 + z1 * dim;
    let a2 = y2 + z2 * dim;
    assert(x1 + y1 * dim + z1 * dim * dim == x1 + a1 * dim) by (nonlinear_arith)
        requires a1 == y1 + z1 * dim;
    assert(x2 + y2 * dim + z2 * dim * dim == x2 + a2 * dim) by (nonlinear_arith)
        requires a2 == y2 + z2 * dim;
    let f = flat_index(x1, y1, z1, dim);
    assert(f == a1 * dim + x1);
    assert(f == a2 * dim + x2);
    vstd::arithmetic::div_mod::lemma_fundamental_div_mod_converse(f, dim, a1, x1);
    vstd::arithmetic::div_mod::lemma_fundamental_div_mod_converse(f, dim, a2, x2);
    vstd::arithmetic::div_mod::lemma_fundamental_div_mod_converse(a1, dim, z1, y1);
    vstd::arithmetic::div_mod::lemma_fundamental_div_mod_converse(a2, dim, z2, y2);
}

/// A vector of `n` copies of the value
pub(crate) fn filled_u32(value: u32, n: usize) -> (r: Vec<u32>)
    ensures
        r@.len() == n,
        forall|i: int| 0 <= i < n ==> #[trigger] r@[i] == value,
{
    let mut r: Vec<u32> = Vec::with_capacity(n);
    let mut i: usize = 0;
    while i < n
        invariant
            i <= n,
            r@.len() == i,
            forall|j: int| 0 <= j < i ==> #[trigger] r@[j] == value,
        decreases n - i,
    {
        r.push(value);
        i += 1;
    }
    r
}

/// 64 bricks, all empty or all holding the same single voxel
pub(crate) fn filled_bricks(solid: Option<u32>) -> (r: Vec<BrickData>)
    ensures
        r@.len() == 64,
        forall|i: int| 0 <= i < 64 ==> #[trigger] r@[i] == match solid {
            Some(v) => BrickData::Solid(v),
            None => BrickData::Empty,
        },
{
    let mut r: Vec<BrickData> = Vec::new();
    let mut i: usize = 0;
    while i < 64
        invariant
            i <= 64,
            r@.len() == i,
            forall|j: int| 0 <= j < i ==> #[trigger] r@[j] == match solid {
                Some(v) => BrickData::Solid(v),
                None => BrickData::Empty,
            },
        decreases 64 - i,
    {
        match solid {
            Some(v) => r.push(BrickData::Solid(v)),
            None => r.push(BrickData::Empty),
        }
        i += 1;
    }
    r
}

impl<T> BoxTree<T> {
    /// The structure of the tree allows its bricks to be materialised in memory
    pub open spec fn bricks_fit(&self) -> bool {
        self.spec_brick_dim() * self.spec_brick_dim() * self.spec_brick_dim() <= u32::MAX
    }

    /// Writes the palette index `entry` at the position into the subtree of the given node
    pub(crate) fn insert_at(&mut self, key: usize, bounds: Cube, position: &V3c<u32>, entry: u32)
        requires
            old(self).wf(),
            old(self).bricks_fit(),
            key < old(self).nodes@.len(),
            bounds == old(self).node_bounds@[key as int],
            cube_contains(bounds, *position),
            pix_valid(entry, old(self).voxel_color_palette@.len(), old(self).voxel_data_palette@.len()),
            old(self).nodes@.len() + old(self).node_levels@[key as int] < EMPTY_MARKER,
        ensures
            final(self).wf(),
            final(self).extends_nodes(old(self)),
            final(self).nodes@.len() <= old(self).nodes@.len() + old(self).node_levels@[key as int],
            final(self).voxel_color_palette@ == old(self).voxel_color_palette@,
            final(self).voxel_data_palette@ == old(self).voxel_data_palette@,
            final(self).mip_map_strategy == old(self).mip_map_strategy,
            final(self).auto_simplify == old(self).auto_simplify,
            forall|k: int| 0 <= k < old(self).nodes@.len() ==> #[trigger] final(self).node_mips@[k] == old(self).node_mips@[k],
            forall|k: int| old(self).nodes@.len() <= k < final(self).nodes@.len() ==> #[trigger] final(self).node_mips@[k] == BrickData::Empty,
            forall|k: int|
                0 <= k < old(self).nodes@.len() && (!cube_contains(#[trigger] old(self).node_bounds@[k], *position)
                    || old(self).node_bounds@[k].size > bounds.size) ==> final(self).nodes@[k] == old(self).nodes@[k]
                    && final(self).node_children@[k] == old(self).node_children@[k],
            forall|p: V3c<u32>| #[trigger] cube_contains(bounds, p) ==> final(self).node_voxel(key as int, bounds, p) == if p == *position {
                entry
            } else {
                old(self).node_voxel(key as int, bounds, p)
            },
        decreases bounds.size, 1int,
    {
        proof {
            assert(old(self).node_wf(key as int));
            lemma_level_size(old(self).brick_dim as nat, old(self).node_levels@[key as int]);
            lemma_sectant_of(bounds, *position);
        }
        let dim = self.brick_dim;
        let s = bounds.sectant_for(position);
        if (bounds.size as u64) > (dim as u64) * 4 {
            self.insert_into_internal(key, bounds, s, position, entry);
        } else {
            self.insert_into_leaf(key, bounds, s, position, entry);
        }
    }
}

impl<T> BoxTree<T> {
    /// Writes the palette index into a node at the lowest level, turning it into a leaf
    fn insert_into_leaf(&mut self, key: usize, bounds: Cube, s: u8, position: &V3c<u32>, entry: u32)
        requires
            old(self).wf(),
            old(self).bricks_fit(),
            key < old(self).nodes@.len(),
            bounds == old(self).node_bounds@[key as int],
            cube_contains(bounds, *position),
            s == sectant_of(bounds, *position),
            bounds.size <= old(self).brick_dim * 4,
            pix_valid(entry, old(self).voxel_color_palette@.len(), old(self).voxel_data_palette@.len()),
        ensures
            final(self).wf(),
            final(self).extends_nodes(old(self)),
            final(self).nodes@.len() == old(self).nodes@.len(),
            final(self).voxel_color_palette@ == old(self).voxel_color_palette@,
            final(self).voxel_data_palette@ == old(self).voxel_data_palette@,
            final(self).mip_map_strategy == old(self).mip_map_strategy,
            final(self).auto_simplify == old(self).auto_simplify,
            final(self).node_mips@ == old(self).node_mips@,
            forall|k: int| 0 <= k < old(self).nodes@.len() && k != key ==> final(self).nodes@[k] == old(self).nodes@[k]
                && final(self).node_children@[k] == old(self).node_children@[k],
            forall|p: V3c<u32>| #[trigger] cube_contains(bounds, p) ==> final(self).node_voxel(key as int, bounds, p) == if p == *position {
                entry
            } else {
                old(self).node_voxel(key as int, bounds, p)
            },
    {
        let ghost dimn = old(self).brick_dim as nat;
        let ghost nc = old(self).voxel_color_palette@.len();
        let ghost nd = old(self).voxel_data_palette@.len();
        let ghost level = old(self).node_levels@[key as int];
        proof {
            assert(old(self).node_wf(key as int));
            lemma_level_size(dimn, level);
            if level >= 2 {
                lemma_level_size(dimn, (level - 1) as nat);
            }
            assert(level == 1);
            assert(pow4(0) == 1);
            assert(dimn * pow4(0) == dimn * 1);
            lemma_sectant_of(bounds, *position);
            lemma_child_cube(bounds, s as int);
            vstd::arithmetic::mul::lemma_mul_nonnegative(dimn as int, dimn as int);
        }
        let dim = self.brick_dim;
        let content = vec_take(&mut self.nodes, key, NodeContent::Nothing);
        let ghost old_content = content;
        let mut bricks: Vec<BrickData> = match content {
            NodeContent::Leaf(b) => b,
            NodeContent::UniformLeaf(BrickData::Solid(v)) => filled_bricks(Some(v)),
            _ => filled_bricks(None),
        };
        let ghost pre_bricks = bricks@;
        let brick = vec_take(&mut bricks, s as usize, BrickData::Empty);
        let ghost old_brick = brick;
        assert(dim * dim <= dim * dim * dim) by (nonlinear_arith)
            requires dim >= 1;
        let n = (dim * dim * dim) as usize;
        let mut parted: Vec<u32> = match brick {
            BrickData::Empty => filled_u32(EMPTY_MARKER, n),
            BrickData::Solid(v) => filled_u32(v, n),
            BrickData::Parted(v) => v,
        };
        let cell = bounds.child_bounds_for(s);
        let mi = crate::spatial::matrix_index_for(&cell, position, dim);
        let d = dim as usize;
        let idx = crate::spatial::flat_projection(mi.x, mi.y, mi.z, d);
        let ghost before_set = parted@;
        parted.set(idx, entry);
        let ghost new_brick = BrickData::Parted(parted);
        bricks.set(s as usize, BrickData::Parted(parted));
        let old_children = vec_take(&mut self.node_children, key, NodeChildren::NoChildren);
        let occupancy: u64 = match old_children {
            NodeChildren::OccupancyBitmap(b) => b,
            _ => 0,
        };
        let occupancy = if entry != EMPTY_MARKER { occupancy | (1u64 << (s as u64)) } else { occupancy };
        self.node_children.set(key, NodeChildren::OccupancyBitmap(occupancy));
        self.nodes.set(key, NodeContent::Leaf(bricks));
        proof {
            // the new leaf is well formed
            assert forall|i: int| 0 <= i < 64 implies brick_valid(#[trigger] bricks@[i], dimn, nc, nd) by {
                if i == s {
                    assert forall|j: int| 0 <= j < parted@.len() implies pix_valid(#[trigger] parted@[j], nc, nd) by {
                        if j != idx {
                            match old_brick {
                                BrickData::Parted(v) => { assert(parted@[j] == v@[j]); },
                                _ => {},
                            }
                            crate::boxtree::lemma_pix_empty();
                        }
                    }
                } else {
                    match old_content {
                        NodeContent::Leaf(b) => {},
                        NodeContent::UniformLeaf(b) => {},
                        _ => {},
                    }
                }
            }
            assert(self.node_wf(key as int));
            assert forall|k: int| 0 <= k < self.nodes@.len() implies self.node_wf(k) by {
                if k != key {
                    assert(old(self).node_wf(k));
                    Self::lemma_node_wf_stable(old(self), self, k);
                }
            }
            // the view of the leaf
            assert forall|p: V3c<u32>| #[trigger] cube_contains(bounds, p) implies self.node_voxel(key as int, bounds, p) == if p == *position {
                entry
            } else {
                old(self).node_voxel(key as int, bounds, p)
            } by {
                lemma_sectant_of(bounds, p);
                let sp = sectant_of(bounds, p);
                let cellp = child_cube(bounds, sp);
                lemma_child_cube(bounds, sp);
                assert(self.node_voxel(key as int, bounds, p) == brick_voxel(bricks@[sp], cellp, p, dimn));
                // the old value, as seen through the bricks before the change
                assert(old(self).node_voxel(key as int, bounds, p) == brick_voxel(pre_bricks[sp], cellp, p, dimn)) by {
                    match old_content {
                        NodeContent::Internal(_) => {
                            let c = old(self).child_key(key as int, sp);
                            if 0 <= c < old(self).nodes@.len() {
                                assert(old(self).node_wf(c));
                            }
                        },
                        _ => {},
                    }
                }
                if sp == s {
                    let ox = p.x - cellp.min_position.x;
                    let oy = p.y - cellp.min_position.y;
                    let oz = p.z - cellp.min_position.z;
                    lemma_axis_cell_identity(ox, dimn as int);
                    lemma_axis_cell_identity(oy, dimn as int);
                    lemma_axis_cell_identity(oz, dimn as int);
                    let px = position.x - cellp.min_position.x;
                    let py = position.y - cellp.min_position.y;
                    let pz = position.z - cellp.min_position.z;
                    lemma_axis_cell_identity(px, dimn as int);
                    lemma_axis_cell_identity(py, dimn as int);
                    lemma_axis_cell_identity(pz, dimn as int);
                    let ip = brick_index_of(cellp, p, dimn as int);
                    assert(ip == flat_index(ox, oy, oz, dimn as int));
                    assert(idx == flat_index(px, py, pz, dimn as int));
                    assert(0 <= ip < dimn * dimn * dimn) by (nonlinear_arith)
                        requires ip == ox + oy * dimn + oz * dimn * dimn, 0 <= ox < dimn, 0 <= oy < dimn, 0 <= oz < dimn;
                    if p != *position {
                        if ip == idx {
                            lemma_flat_injective(ox, oy, oz, px, py, pz, dimn as int);
                        }
                        assert(ip != idx);
                        assert(parted@[ip] == before_set[ip]);
                    }
                }
            }
        }
    }
}

impl<T> BoxTree<T> {
    /// Writes the palette index into the child of a node above the lowest level,
    /// turning the node into an internal node and creating the child when needed
    fn insert_into_internal(&mut self, key: usize, bounds: Cube, s: u8, position: &V3c<u32>, entry: u32)
        requires
            old(self).wf(),
            old(self).bricks_fit(),
            key < old(self).nodes@.len(),
            bounds == old(self).node_bounds@[key as int],
            cube_contains(bounds, *position),
            s == sectant_of(bounds, *position),
            bounds.size > old(self).brick_dim * 4,
            pix_valid(entry, old(self).voxel_color_palette@.len(), old(self).voxel_data_palette@.len()),
            old(self).nodes@.len() + old(self).node_levels@[key as int] < EMPTY_MARKER,
        ensures
            final(self).wf(),
            final(self).extends_nodes(old(self)),
            final(self).nodes@.len() <= old(self).nodes@.len() + old(self).node_levels@[key as int],
            final(self).voxel_color_palette@ == old(self).voxel_color_palette@,
            final(self).voxel_data_palette@ == old(self).voxel_data_palette@,
            final(self).mip_map_strategy == old(self).mip_map_strategy,
            final(self).auto_simplify == old(self).auto_simplify,
            forall|k: int| 0 <= k < old(self).nodes@.len() ==> #[trigger] final(self).node_mips@[k] == old(self).node_mips@[k],
            forall|k: int| old(self).nodes@.len() <= k < final(self).nodes@.len() ==> #[trigger] final(self).node_mips@[k] == BrickData::Empty,
            forall|k: int|
                0 <= k < old(self).nodes@.len() && (!cube_contains(#[trigger] old(self).node_bounds@[k], *position)
                    || old(self).node_bounds@[k].size > bounds.size) ==> final(self).nodes@[k] == old(self).nodes@[k]
                    && final(self).node_children@[k] == old(self).node_children@[k],
            forall|p: V3c<u32>| #[trigger] cube_contains(bounds, p) ==> final(self).node_voxel(key as int, bounds, p) == if p == *position {
                entry
            } else {
                old(self).node_voxel(key as int, bounds, p)
            },
        decreases bounds.size, 0int,
    {
        let ghost dimn = old(self).brick_dim as nat;
        let ghost level = old(self).node_levels@[key as int];
        let ghost old_len = old(self).nodes@.len();
        proof {
            assert(old(self).node_wf(key as int));
            lemma_level_size(dimn, level);
            if level == 1 {
                assert(pow4(0) == 1);
                assert(dimn * pow4(0) == dimn * 1);
                assert(bounds.size == dimn * 4);
            }
            assert(level >= 2);
            lemma_level_size(dimn, (level - 1) as nat);
            lemma_sectant_of(bounds, *position);
            lemma_child_cube(bounds, s as int);
            crate::boxtree::lemma_pix_empty();
        }
        let content = vec_take(&mut self.nodes, key, NodeContent::Nothing);
        let ghost old_content = content;
        let (was_internal, bits) = match content {
            NodeContent::Internal(b) => (true, b),
            _ => (false, 0u64),
        };
        let old_children = vec_take(&mut self.node_children, key, NodeChildren::NoChildren);
        let ghost old_children_g = old_children;
        let mut child_vec: Vec<u32> = match old_children {
            NodeChildren::Children(v) => if was_internal { v } else { filled_u32(EMPTY_MARKER, 64) },
            _ => filled_u32(EMPTY_MARKER, 64),
        };
        let ghost old_child_vec = child_vec@;
        proof {
            assert forall|i: int| 0 <= i < 64 implies #[trigger] old_child_vec[i] == EMPTY_MARKER || (0 < old_child_vec[i] < old_len
                && old(self).node_bounds@[old_child_vec[i] as int] == child_cube(bounds, i)
                && old(self).node_levels@[old_child_vec[i] as int] + 1 == level) by {
            }
        }
        let mut c = child_vec[s as usize] as usize;
        let cb = bounds.child_bounds_for(s);
        if c >= self.nodes.len() {
            c = self.nodes.len();
            self.nodes.push(NodeContent::Nothing);
            self.node_children.push(NodeChildren::NoChildren);
            self.node_mips.push(BrickData::Empty);
            self.node_bounds.push(cb);
            let ghost nl = self.node_levels@.push((level - 1) as nat);
            self.node_levels = Ghost(nl);
            child_vec.set(s as usize, c as u32);
        }
        let ghost new_child_vec = child_vec@;
        self.node_children.set(key, NodeChildren::Children(child_vec));
        self.nodes.set(key, NodeContent::Internal(bits | (1u64 << (s as u64))));
        let ghost mid = *self;
        proof {
            assert(mid.extends_nodes(old(self)));
            assert(mid.node_wf(key as int)) by {
                assert forall|i: int| 0 <= i < 64 implies #[trigger] new_child_vec[i] == EMPTY_MARKER || (0 < new_child_vec[i] < mid.nodes@.len()
                    && mid.node_bounds@[new_child_vec[i] as int] == child_cube(bounds, i)
                    && mid.node_levels@[new_child_vec[i] as int] + 1 == level) by {
                    if i != s {
                        assert(new_child_vec[i] == old_child_vec[i]);
                    }
                }
            }
            assert forall|k: int| 0 <= k < mid.nodes@.len() implies mid.node_wf(k) by {
                if k == c && c == old_len {
                    assert(mid.node_bounds@[k] == cb);
                } else if k != key {
                    assert(old(self).node_wf(k));
                    Self::lemma_node_wf_stable(old(self), &mid, k);
                }
            }
            assert(mid.wf());
        }
        self.insert_at(c, cb, position, entry);
        proof {
            let fin = *self;
            assert(fin.extends_nodes(old(self)));
            assert(fin.nodes@[key as int] == mid.nodes@[key as int]);
            assert(fin.node_children@[key as int] == mid.node_children@[key as int]);
            assert forall|k: int|
                0 <= k < old_len && (!cube_contains(#[trigger] old(self).node_bounds@[k], *position)
                    || old(self).node_bounds@[k].size > bounds.size) implies fin.nodes@[k] == old(self).nodes@[k]
                    && fin.node_children@[k] == old(self).node_children@[k] by {
                assert(k != key);
                assert(mid.node_bounds@[k] == old(self).node_bounds@[k]);
            }
            assert forall|p: V3c<u32>| #[trigger] cube_contains(bounds, p) implies fin.node_voxel(key as int, bounds, p) == if p == *position {
                entry
            } else {
                old(self).node_voxel(key as int, bounds, p)
            } by {
                lemma_sectant_of(bounds, p);
                let sp = sectant_of(bounds, p);
                let cbp = child_cube(bounds, sp);
                lemma_child_cube(bounds, sp);
                assert(fin.child_key(key as int, sp) == new_child_vec[sp] as int);
                if sp == s {
                    assert(fin.node_voxel(key as int, bounds, p) == fin.node_voxel(c as int, cb, p));
                    if p != *position {
                        assert(fin.node_voxel(c as int, cb, p) == mid.node_voxel(c as int, cb, p));
                        if c == old_len {
                            assert(mid.node_voxel(c as int, cb, p) == EMPTY_MARKER);
                            assert(old(self).node_voxel(key as int, bounds, p) == EMPTY_MARKER) by {
                                match old_content {
                                    NodeContent::Internal(_) => {
                                        match old_children_g {
                                            NodeChildren::Children(v) => {},
                                            _ => {},
                                        }
                                    },
                                    _ => {},
                                }
                            }
                        } else {
                            assert(old(self).node_wf(c as int));
                            Self::lemma_voxel_frame_size(old(self), &mid, c as int, cb, p);
                            assert(old(self).child_key(key as int, s as int) == c);
                        }
                    }
                } else {
                    let cp = new_child_vec[sp] as int;
                    assert(cp == old_child_vec[sp] as int);
                    if 0 <= cp < fin.nodes@.len() {
                        assert(cp < old_len);
                        assert(!cube_contains(cbp, *position));
                        assert(old(self).node_wf(cp));
                        assert forall|k: int| 0 <= k < old_len && !cube_contains(#[trigger] old(self).node_bounds@[k], *position)
                            implies fin.nodes@[k] == old(self).nodes@[k] && fin.node_children@[k] == old(self).node_children@[k] by {
                            assert(mid.node_bounds@[k] == old(self).node_bounds@[k]);
                        }
                        Self::lemma_voxel_frame_disjoint(old(self), &fin, cp, cbp, p, *position);
                        assert(old(self).child_key(key as int, sp) == cp);
                    } else {
                        assert(old(self).node_voxel(key as int, bounds, p) == EMPTY_MARKER) by {
                            match old_content {
                                NodeContent::Internal(_) => {
                                    match old_children_g {
                                        NodeChildren::Children(v) => {},
                                        _ => {},
                                    }
                                },
                                _ => {},
                            }
                        }
                    }
                }
            }
        }
    }
}

impl<T> BoxTree<T> {
    /// The color and data a voxel holds after inserting the given color
    pub open spec fn inserted_entry(albedo: Albedo) -> (Option<Albedo>, Option<T>) {
        if albedo.a == 0 {
            (None, None)
        } else {
            (Some(albedo), None)
        }
    }

    /// The trees have the same shape and hold the same voxels
    pub open spec fn same_entries(&self, other: &Self) -> bool {
        &&& self.spec_size() == other.spec_size()
        &&& self.spec_brick_dim() == other.spec_brick_dim()
        &&& self.spec_auto_simplify() == other.spec_auto_simplify()
        &&& forall|p: V3c<u32>| #[trigger] self.entry_at(p) == other.entry_at(p)
    }

    /// The trees hold the same content, with the same settings
    pub open spec fn same_content(&self, other: &Self) -> bool {
        &&& self.same_entries(other)
        &&& self.strategy().same_settings(&other.strategy())
    }

    /// Sets the color of the voxel at the given position, dropping any data it held.
    /// A fully transparent color clears the voxel.
    pub fn insert(&mut self, position: &V3c<u32>, albedo: &Albedo) -> (res: Result<(), OctreeError>)
        requires
            old(self).wf(),
            old(self).bricks_fit(),
        ensures
            final(self).wf(),
            final(self).spec_size() == old(self).spec_size(),
            final(self).spec_brick_dim() == old(self).spec_brick_dim(),
            final(self).spec_auto_simplify() == old(self).spec_auto_simplify(),
            final(self).strategy().same_settings(&old(self).strategy()),
            !cube_contains(old(self).root_cube(), *position) ==> res == Err::<(), OctreeError>(
                OctreeError::InvalidPosition { x: position.x, y: position.y, z: position.z },
            ),
            cube_contains(old(self).root_cube(), *position) && !old(self).has_node_room() ==> (res matches Err(
                OctreeError::InvalidStructure(m)) && m@ == "Octree has no room for more nodes"@),
            cube_contains(old(self).root_cube(), *position) && old(self).has_node_room() && albedo.a != 0
                && !old(self).colors().contains(*albedo) && old(self).colors().len() + 1 >= EMPTY_INDEX
                ==> (res matches Err(OctreeError::InvalidStructure(m)) && m@ == "Color palette is full"@),
            res is Ok <==> (cube_contains(old(self).root_cube(), *position) && old(self).has_node_room() && (
            albedo.a == 0 || old(self).colors().contains(*albedo) || old(self).colors().len() + 1
                < EMPTY_INDEX)),
            res is Err ==> final(self).same_content(old(self)),
            res is Err ==> final(self).node_count() == old(self).node_count(),
            res is Err ==> final(self).colors() == old(self).colors(),
            res is Ok ==> old(self).colors() == final(self).colors().subrange(0, old(self).colors().len() as int)
                && final(self).colors().len() <= old(self).colors().len() + 17,
            res is Ok ==> old(self).node_count() <= final(self).node_count() <= old(self).node_count() + 17,
            res is Ok ==> forall|p: V3c<u32>| #[trigger] final(self).entry_at(p) == if p == *position {
                Self::inserted_entry(*albedo)
            } else {
                old(self).entry_at(p)
            },
            res is Ok ==> forall|d: nat| #![trigger final(self).path_key(*position, d)]
                0 <= final(self).path_key(*position, d) < final(self).node_count()
                ==> final(self).mip_cell_updated(
                    final(self).path_key(*position, d),
                    *position,
                    if final(self).path_key(*position, d) < old(self).node_count() {
                        old(self).mip_entry_at(final(self).path_key(*position, d), *position)
                    } else {
                        EMPTY_MARKER
                    },
                ),
            res is Ok ==> forall|d: nat, g: int|
                #![trigger final(self).path_key(*position, d), final(self).mip_entry(final(self).path_key(*position, d), g)]
                0 <= final(self).path_key(*position, d) < final(self).node_count()
                && 0 <= g < final(self).spec_brick_dim() * final(self).spec_brick_dim() * final(self).spec_brick_dim()
                && g != final(self).mip_cell_index(final(self).path_key(*position, d), *position)
                && !(final(self).strategy().spec_enabled() && final(self).node_is_uniform_leaf(final(self).path_key(*position, d)))
                ==> final(self).mip_entry(final(self).path_key(*position, d), g) == if final(self).path_key(*position, d) < old(self).node_count() {
                    old(self).mip_entry(final(self).path_key(*position, d), g)
                } else {
                    EMPTY_MARKER
                },
            res is Ok ==> forall|k: int, x: int, y: int, z: int| 0 <= k < old(self).node_count()
                && (forall|d: nat| #[trigger] final(self).path_key(*position, d) != k)
                ==> #[trigger] final(self).mip_voxel(k, x, y, z) == old(self).mip_voxel(k, x, y, z),
    {
        let root = Cube::root_bounds(self.boxtree_size);
        if !root.contains(position) {
            return Err(OctreeError::InvalidPosition { x: position.x, y: position.y, z: position.z });
        }
        if (self.nodes.len() as u64) + 17 >= EMPTY_MARKER as u64 {
            let message = "Octree has no room for more nodes".to_string();
            proof {
                broadcast use vstd::string::group_string_axioms;
            }
            return Err(OctreeError::InvalidStructure(message));
        }
        let entry = if albedo.is_transparent() {
            proof {
                lemma_pix_empty();
            }
            EMPTY_MARKER
        } else {
            match self.add_albedo_to_palette(albedo) {
                Some(pix) => pix,
                None => {
                    proof {
                        assert forall|p: V3c<u32>| #[trigger] self.entry_at(p) == old(self).entry_at(p) by {
                            if cube_contains(root, p) {
                                assert(old(self).node_wf(0));
                                Self::lemma_voxel_frame_size(old(self), self, 0, root, p);
                            }
                        }
                    }
                    let message = "Color palette is full".to_string();
                    proof {
                        broadcast use vstd::string::group_string_axioms;
                    }
                    return Err(OctreeError::InvalidStructure(message));
                },
            }
        };
        let ghost with_color = *self;
        proof {
            assert(with_color.node_wf(0));
            lemma_level_bound(with_color.brick_dim as nat, with_color.node_levels@[0]);
            lemma_pix_empty();
        }
        proof {
            assert(old(self).colors() =~= with_color.colors().subrange(0, old(self).colors().len() as int));
            assert(old(self).datas() =~= with_color.datas().subrange(0, old(self).datas().len() as int));
        }
        self.insert_at(0, root, position, entry);
        let ghost inserted = *self;
        proof {
            assert forall|p: V3c<u32>| #[trigger] inserted.entry_at(p) == if p == *position {
                Self::inserted_entry(*albedo)
            } else {
                old(self).entry_at(p)
            } by {
                if cube_contains(root, p) && p != *position {
                    assert(inserted.voxel_at(p) == with_color.voxel_at(p));
                    Self::lemma_voxel_frame_size(old(self), &with_color, 0, root, p);
                    old(self).lemma_node_voxel_valid(0, root, p);
                    lemma_pix_parts_grow(old(self).voxel_at(p), old(self).colors(), old(self).datas(), inserted.colors(), inserted.datas());
                }
            }
        }
        self.update_mips_on_path(position);
        proof {
            Self::lemma_same_voxels_entries(&inserted, self);
            assert forall|d: nat| #![trigger self.path_key(*position, d)]
                0 <= self.path_key(*position, d) < self.node_count()
                implies self.mip_cell_updated(
                    self.path_key(*position, d),
                    *position,
                    if self.path_key(*position, d) < old(self).node_count() {
                        old(self).mip_entry_at(self.path_key(*position, d), *position)
                    } else {
                        EMPTY_MARKER
                    },
                ) by {
                Self::lemma_path_same(self, &inserted, *position, d);
                let k = self.path_key(*position, d);
                if k < old(self).nodes@.len() {
                    assert(inserted.node_mips@[k] == with_color.node_mips@[k]);
                    assert(inserted.node_bounds@[k] == with_color.node_bounds@[k]);
                    Self::lemma_mip_cells_same(&inserted, old(self), k, *position);
                } else {
                    inserted.lemma_mip_cells_empty(k, *position);
                }
            }
            assert forall|d: nat, g: int|
                #![trigger self.path_key(*position, d), self.mip_entry(self.path_key(*position, d), g)]
                0 <= self.path_key(*position, d) < self.node_count()
                && 0 <= g < self.spec_brick_dim() * self.spec_brick_dim() * self.spec_brick_dim()
                && g != self.mip_cell_index(self.path_key(*position, d), *position)
                && !(self.strategy().spec_enabled() && self.node_is_uniform_leaf(self.path_key(*position, d)))
                implies self.mip_entry(self.path_key(*position, d), g) == if self.path_key(*position, d) < old(self).node_count() {
                    old(self).mip_entry(self.path_key(*position, d), g)
                } else {
                    EMPTY_MARKER
                } by {
                Self::lemma_path_same(self, &inserted, *position, d);
                let k = self.path_key(*position, d);
                self.lemma_rest_kept(&inserted, k, *position, g);
                if k < old(self).nodes@.len() {
                    assert(inserted.node_mips@[k] == with_color.node_mips@[k]);
                    assert(inserted.node_bounds@[k] == with_color.node_bounds@[k]);
                    Self::lemma_mip_cells_same(&inserted, old(self), k, *position);
                } else {
                    inserted.lemma_mip_cells_empty(k, *position);
                }
            }
            assert forall|k: int, x: int, y: int, z: int| 0 <= k < old(self).node_count()
                && (forall|d: nat| #[trigger] self.path_key(*position, d) != k)
                implies #[trigger] self.mip_voxel(k, x, y, z) == old(self).mip_voxel(k, x, y, z) by {
                assert forall|d: nat| #[trigger] inserted.path_key(*position, d) != k by {
                    Self::lemma_path_same(self, &inserted, *position, d);
                }
                assert(self.node_mips@[k] == inserted.node_mips@[k]);
                assert(inserted.node_mips@[k] == with_color.node_mips@[k]);
                Self::lemma_mip_cells_same(self, old(self), k, *position);
            }
        }
        Ok(())
    }
}

} // verus!
