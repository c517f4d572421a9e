//! The voxel container.
use vstd::prelude::*;

pub mod types;
pub mod strategy;
pub mod resample;
pub mod update;
pub mod mipmap;
pub mod unified_traits;
pub mod iterate;
pub mod render_data;
pub mod bytecode;
pub mod readback;

pub use crate::spatial::{V3c, OOB_SECTANT, BOX_NODE_DIMENSION, BOX_NODE_CHILDREN_COUNT};
pub use types::{
    Albedo, BoxTree, BoxTreeEntry, MIPMapStrategy, MIPResamplingMethods, OctreeError, StrategyUpdater,
    VoxelData,
};
pub use unified_traits::{UnifiedVoxelData, UnifiedVoxelDataExt};

use crate::spatial::{
    Cube, cube_contains, cube_fits, cube_splittable, child_cube, sectant_of, brick_index_of,
    lemma_sectant_of, lemma_child_cube,
};
use crate::boxtree::types::{
    BrickData, NodeChildren, NodeContent, EMPTY_MARKER, EMPTY_INDEX, entry_parts,
};
use std::collections::HashMap;

verus! {

broadcast use {
    vstd::std_specs::hash::group_hash_axioms,
    vstd::std_specs::hash::axiom_u32_obeys_hash_table_key_model,
    vstd::std_specs::hash::axiom_random_state_builds_valid_hashers,
};

/// The key a color is found by in the palette index: its channels packed into one word, red
/// in the highest byte
pub open spec fn color_key(c: Albedo) -> u32 {
    ((c.r as u32) << 24u32) | ((c.g as u32) << 16u32) | ((c.b as u32) << 8u32) | (c.a as u32)
}

/// Different colors have different keys
pub proof fn lemma_color_key_injective(a: Albedo, b: Albedo)
    ensures
        color_key(a) == color_key(b) ==> a == b,
{
    let (ar, ag, ab, aa) = (a.r, a.g, a.b, a.a);
    let (br, bg, bb, ba) = (b.r, b.g, b.b, b.a);
    assert(((ar as u32) << 24u32) | ((ag as u32) << 16u32) | ((ab as u32) << 8u32) | (aa as u32)
        == ((br as u32) << 24u32) | ((bg as u32) << 16u32) | ((bb as u32) << 8u32) | (ba as u32)
        ==> ar == br && ag == bg && ab == bb && aa == ba) by (bit_vector);
}

/// The key a color is found by in the palette index
pub fn color_key_exec(c: &Albedo) -> (r: u32)
    ensures
        r == color_key(*c),
{
    ((c.r as u32) << 24u32) | ((c.g as u32) << 16u32) | ((c.b as u32) << 8u32) | (c.a as u32)
}

/// The index holds, for each color of the palette, the first index the color sits at, and
/// nothing for other colors
pub open spec fn palette_indexed(pal: Seq<Albedo>, index: Map<u32, usize>) -> bool {
    &&& forall|c: Albedo| #[trigger] index.contains_key(color_key(c)) <==> pal.contains(c)
    &&& forall|c: Albedo| #[trigger] index.contains_key(color_key(c)) ==> {
        &&& index[color_key(c)] < pal.len()
        &&& pal[index[color_key(c)] as int] == c
        &&& forall|j: int| 0 <= j < index[color_key(c)] ==> pal[j] != c
    }
}

/// The palette index of the given colors: each color's key paired with its first index
pub(crate) fn index_palette(colors: &Vec<Albedo>) -> (r: HashMap<u32, usize>)
    ensures
        palette_indexed(colors@, r@),
{
    let mut index: HashMap<u32, usize> = HashMap::new();
    let mut i: usize = 0;
    proof {
        assert forall|c: Albedo| #[trigger] index@.contains_key(color_key(c)) <==> colors@.subrange(0, 0).contains(c) by {}
    }
    while i < colors.len()
        invariant
            i <= colors@.len(),
            palette_indexed(colors@.subrange(0, i as int), index@),
        decreases colors@.len() - i,
    {
        let c = colors[i];
        let key = color_key_exec(&c);
        let ghost pre = colors@.subrange(0, i as int);
        assert(colors@.subrange(0, i + 1) == pre.push(c));
        if index.contains_key(&key) {
            proof {
                assert(pre.contains(c));
                assert forall|d: Albedo| #[trigger] index@.contains_key(color_key(d)) <==> pre.push(c).contains(d) by {
                    if pre.push(c).contains(d) && d != c {
                        let j = choose|j: int| 0 <= j < pre.push(c).len() && pre.push(c)[j] == d;
                        assert(pre[j] == d);
                    }
                    if pre.contains(d) {
                        let j = choose|j: int| 0 <= j < pre.len() && pre[j] == d;
                        assert(pre.push(c)[j] == d);
                    }
                }
                assert forall|d: Albedo| #[trigger] index@.contains_key(color_key(d)) implies {
                    &&& index@[color_key(d)] < pre.push(c).len()
                    &&& pre.push(c)[index@[color_key(d)] as int] == d
                    &&& forall|j: int| 0 <= j < index@[color_key(d)] ==> pre.push(c)[j] != d
                } by {
                    assert(index@[color_key(d)] < pre.len());
                }
            }
        } else {
            proof {
                lemma_palette_index_push(pre, index@, c);
            }
            index.insert(key, i);
        }
        i += 1;
    }
    assert(colors@.subrange(0, colors@.len() as int) == colors@);
    index
}

/// Adding a color that is not in the palette at its end, and pairing its key with its index,
/// keeps the index
pub proof fn lemma_palette_index_push(pal: Seq<Albedo>, index: Map<u32, usize>, c: Albedo)
    requires
        palette_indexed(pal, index),
        !pal.contains(c),
        pal.len() < usize::MAX,
    ensures
        palette_indexed(pal.push(c), index.insert(color_key(c), pal.len() as usize)),
{
    let pal2 = pal.push(c);
    let index2 = index.insert(color_key(c), pal.len() as usize);
    assert forall|d: Albedo| #[trigger] index2.contains_key(color_key(d)) <==> pal2.contains(d) by {
        lemma_color_key_injective(c, d);
        if d != c {
            if pal2.contains(d) {
                let j = choose|j: int| 0 <= j < pal2.len() && pal2[j] == d;
                assert(pal[j] == d);
            }
            if pal.contains(d) {
                let j = choose|j: int| 0 <= j < pal.len() && pal[j] == d;
                assert(pal2[j] == d);
            }
        } else {
            assert(pal2[pal.len() as int] == c);
        }
    }
    assert forall|d: Albedo| #[trigger] index2.contains_key(color_key(d)) implies {
        &&& index2[color_key(d)] < pal2.len()
        &&& pal2[index2[color_key(d)] as int] == d
        &&& forall|j: int| 0 <= j < index2[color_key(d)] ==> pal2[j] != d
    } by {
        lemma_color_key_injective(c, d);
        if d == c {
            assert(index2[color_key(d)] == pal.len() as usize);
            assert(pal2[pal.len() as int] == c);
            assert forall|j: int| 0 <= j < pal.len() implies pal2[j] != d by {
                if pal2[j] == d {
                    assert(pal[j] == c);
                    assert(pal.contains(c));
                }
            }
        } else {
            assert(index.contains_key(color_key(d)));
            let i = index[color_key(d)];
            assert(index2[color_key(d)] == i);
            assert(i < pal.len() && pal[i as int] == d);
            assert(pal2[i as int] == pal[i as int]);
            assert forall|j: int| 0 <= j < i implies pal2[j] != d by {
                assert(pal2[j] == pal[j]);
            }
        }
    }
}

/// `4^j`
pub open spec fn pow4(j: nat) -> nat
    decreases j,
{
    if j == 0 {
        1
    } else {
        4 * pow4((j - 1) as nat)
    }
}

/// The color half of a palette index
pub open spec fn pix_color_index(pix: u32) -> u32 {
    pix >> 16u32
}

/// The data half of a palette index
pub open spec fn pix_data_index(pix: u32) -> u32 {
    pix & 0xFFFFu32
}

/// The color and the data a palette index refers to, given the palettes
pub open spec fn pix_parts<T>(pix: u32, colors: Seq<Albedo>, datas: Seq<T>) -> (Option<Albedo>, Option<T>) {
    (
        if pix_color_index(pix) < colors.len() { Some(colors[pix_color_index(pix) as int]) } else { None },
        if pix_data_index(pix) < datas.len() { Some(datas[pix_data_index(pix) as int]) } else { None },
    )
}

/// Each half of the palette index points into its palette, or marks the part absent
pub open spec fn pix_valid(pix: u32, n_colors: nat, n_datas: nat) -> bool {
    &&& (pix_color_index(pix) < n_colors || pix_color_index(pix) == EMPTY_INDEX)
    &&& (pix_data_index(pix) < n_datas || pix_data_index(pix) == EMPTY_INDEX)
}

/// The palette index of a voxel with only a color
pub open spec fn pix_visual_spec(color_index: u32) -> u32 {
    ((color_index << 16u32) | 0xFFFFu32) as u32
}

proof fn lemma_pix_visual(c: u32)
    requires
        c < 0xFFFF,
    ensures
        pix_color_index(pix_visual_spec(c)) == c,
        pix_data_index(pix_visual_spec(c)) == EMPTY_INDEX,
        pix_visual_spec(c) != EMPTY_MARKER,
{
    assert(((((c << 16u32) | 0xFFFFu32) as u32) >> 16u32) == c) by (bit_vector)
        requires c < 0xFFFF;
    assert(((((c << 16u32) | 0xFFFFu32) as u32) & 0xFFFFu32) == 0xFFFF) by (bit_vector);
    assert((((c << 16u32) | 0xFFFFu32) as u32) != 0xFFFF_FFFFu32) by (bit_vector)
        requires c < 0xFFFF;
}

proof fn lemma_pix_empty()
    ensures
        pix_color_index(EMPTY_MARKER) == EMPTY_INDEX,
        pix_data_index(EMPTY_MARKER) == EMPTY_INDEX,
{
    assert((0xFFFF_FFFFu32 >> 16u32) == 0xFFFFu32) by (bit_vector);
    assert((0xFFFF_FFFFu32 & 0xFFFFu32) == 0xFFFFu32) by (bit_vector);
}

/// The palette index of a voxel with only a color
pub fn pix_visual(color_index: u16) -> (r: u32)
    ensures
        r == pix_visual_spec(color_index as u32),
{
    ((color_index as u32) << 16u32) | 0xFFFFu32
}

/// A brick's content is consistent with the brick dimension and the palettes
pub open spec fn brick_valid(b: BrickData, dim: nat, n_colors: nat, n_datas: nat) -> bool {
    match b {
        BrickData::Empty => true,
        BrickData::Solid(v) => pix_valid(v, n_colors, n_datas),
        BrickData::Parted(v) => v.len() == dim * dim * dim && forall|i: int|
            0 <= i < v.len() ==> pix_valid(#[trigger] v[i], n_colors, n_datas),
    }
}

/// The voxel of a brick laid over `cell` at the position
pub open spec fn brick_voxel(b: BrickData, cell: Cube, p: V3c<u32>, dim: nat) -> u32 {
    match b {
        BrickData::Empty => EMPTY_MARKER,
        BrickData::Solid(v) => v,
        BrickData::Parted(v) => {
            let i = brick_index_of(cell, p, dim as int);
            if 0 <= i < v.len() { v[i] } else { EMPTY_MARKER }
        },
    }
}

impl<T> BoxTree<T> {
    /// Edge length of the cube the tree covers
    pub closed spec fn spec_size(&self) -> u32 {
        self.boxtree_size
    }

    /// True if the tree may merge uniform content
    pub closed spec fn spec_auto_simplify(&self) -> bool {
        self.auto_simplify
    }

    /// Edge length of a brick of voxels
    pub closed spec fn spec_brick_dim(&self) -> u32 {
        self.brick_dim
    }

    /// Settings of the MIP maps
    pub closed spec fn strategy(&self) -> MIPMapStrategy {
        self.mip_map_strategy
    }

    /// The colors of the palette
    pub closed spec fn colors(&self) -> Seq<Albedo> {
        self.voxel_color_palette@
    }

    /// The user data of the palette
    pub closed spec fn datas(&self) -> Seq<T> {
        self.voxel_data_palette@
    }

    /// Number of nodes
    pub closed spec fn node_count(&self) -> nat {
        self.nodes@.len()
    }

    /// The cube the whole tree covers
    pub open spec fn root_cube(&self) -> Cube {
        Cube { min_position: V3c { x: 0u32, y: 0u32, z: 0u32 }, size: self.spec_size() }
    }

    /// True if the node holds 64 bricks, one for each sectant
    pub closed spec fn node_is_leaf(&self, key: int) -> bool {
        self.nodes@[key] is Leaf
    }

    /// True if the node holds a single brick covering the whole node
    pub closed spec fn node_is_uniform_leaf(&self, key: int) -> bool {
        self.nodes@[key] is UniformLeaf
    }

    /// True if the node has child nodes
    pub closed spec fn node_is_internal(&self, key: int) -> bool {
        self.nodes@[key] is Internal
    }

    /// True if the node holds nothing
    pub closed spec fn node_is_nothing(&self, key: int) -> bool {
        self.nodes@[key] is Nothing
    }

    /// True if the MIP map of the node holds voxels of more than one kind
    pub closed spec fn mip_is_parted(&self, key: int) -> bool {
        self.node_mips@[key] is Parted
    }

    /// Each node holds exactly one kind of content
    pub proof fn lemma_node_kinds(&self, key: int)
        ensures
            self.node_is_nothing(key) || self.node_is_internal(key) || self.node_is_leaf(key)
                || self.node_is_uniform_leaf(key),
            !(self.node_is_nothing(key) && self.node_is_internal(key)),
            !(self.node_is_internal(key) && self.node_is_leaf(key)),
            !(self.node_is_internal(key) && self.node_is_uniform_leaf(key)),
            !(self.node_is_leaf(key) && self.node_is_uniform_leaf(key)),
            !(self.node_is_nothing(key) && (self.node_is_leaf(key) || self.node_is_uniform_leaf(key))),
    {
    }

    /// The kind predicates read the node's content and MIP map, the brick size its field
    pub(crate) proof fn lemma_kinds_read_fields(&self, key: int)
        ensures
            self.spec_brick_dim() == self.brick_dim,
            self.node_is_nothing(key) == (self.nodes@[key] is Nothing),
            self.node_is_internal(key) == (self.nodes@[key] is Internal),
            self.node_is_leaf(key) == (self.nodes@[key] is Leaf),
            self.node_is_uniform_leaf(key) == (self.nodes@[key] is UniformLeaf),
            self.mip_is_parted(key) == (self.node_mips@[key] is Parted),
    {
    }

    /// The cube a node covers
    pub closed spec fn node_cube(&self, key: int) -> Cube {
        self.node_bounds@[key]
    }

    /// The root covers the tree's cube, and each child node covers the child cube of its
    /// parent's cube at its sectant
    pub proof fn lemma_node_cubes(&self, key: int, s: int)
        requires
            self.wf(),
        ensures
            self.node_cube(0) == self.root_cube(),
            0 <= key < self.node_count() ==> cube_fits(self.node_cube(key)),
            0 <= key < self.node_count() && 0 <= s < 64 && self.child_key(key, s) != EMPTY_MARKER as int
                ==> 0 < self.child_key(key, s) < self.node_count()
                && self.node_cube(self.child_key(key, s)) == child_cube(self.node_cube(key), s),
    {
        if 0 <= key < self.node_count() {
            assert(self.node_wf(key));
        }
    }

    /// True if the root holds nothing
    pub closed spec fn root_is_nothing(&self) -> bool {
        self.nodes@[0] is Nothing
    }

    /// Key of the child of a node at a sectant, or `EMPTY_MARKER`
    pub closed spec fn child_key(&self, key: int, s: int) -> int {
        match self.node_children@[key] {
            NodeChildren::Children(v) => v@[s] as int,
            _ => EMPTY_MARKER as int,
        }
    }

    /// The palette index of the voxel at the position inside a node covering `bounds`
    pub closed spec fn node_voxel(&self, key: int, bounds: Cube, p: V3c<u32>) -> u32
        decreases bounds.size,
    {
        if !(0 <= key < self.nodes@.len()) || !cube_splittable(bounds) {
            EMPTY_MARKER
        } else {
            let s = sectant_of(bounds, p);
            match self.nodes@[key] {
                NodeContent::Nothing => EMPTY_MARKER,
                NodeContent::Internal(_) => {
                    let c = self.child_key(key, s);
                    if 0 <= c < self.nodes@.len() {
                        self.node_voxel(c, child_cube(bounds, s), p)
                    } else {
                        EMPTY_MARKER
                    }
                },
                NodeContent::Leaf(bricks) => {
                    if 0 <= s < bricks@.len() {
                        brick_voxel(bricks@[s], child_cube(bounds, s), p, self.brick_dim as nat)
                    } else {
                        EMPTY_MARKER
                    }
                },
                NodeContent::UniformLeaf(brick) => brick_voxel(brick, bounds, p, self.brick_dim as nat),
            }
        }
    }

    /// Invariant of the structure of the tree
    pub closed spec fn wf(&self) -> bool {
        let n = self.nodes@.len();
        let dim = self.brick_dim as nat;
        &&& 1 <= n < EMPTY_MARKER
        &&& self.node_children@.len() == n
        &&& self.node_mips@.len() == n
        &&& self.node_bounds@.len() == n
        &&& self.node_levels@.len() == n
        &&& self.brick_dim >= 1
        &&& self.voxel_color_palette@.len() < EMPTY_INDEX
        &&& self.voxel_data_palette@.len() < EMPTY_INDEX
        &&& palette_indexed(self.voxel_color_palette@, self.map_to_color_index_in_palette@)
        &&& self.node_bounds@[0] == self.root_cube()
        &&& forall|k: int| 0 <= k < n ==> self.node_wf(k)
    }

    /// Invariant of a single node
    pub closed spec fn node_wf(&self, k: int) -> bool {
        let n = self.nodes@.len();
        let dim = self.brick_dim as nat;
        let nc = self.voxel_color_palette@.len();
        let nd = self.voxel_data_palette@.len();
        let b = self.node_bounds@[k];
        let j = self.node_levels@[k];
        &&& j >= 1
        &&& b.size == dim * pow4(j)
        &&& cube_fits(b)
        &&& match self.node_children@[k] {
            NodeChildren::Children(v) => v@.len() == 64 && forall|s: int|
                0 <= s < 64 ==> #[trigger] v@[s] == EMPTY_MARKER || (0 < v@[s] < n
                    && self.node_bounds@[v@[s] as int] == child_cube(b, s)
                    && self.node_levels@[v@[s] as int] + 1 == j),
            _ => true,
        }
        &&& match self.nodes@[k] {
            NodeContent::Leaf(bricks) => j == 1 && bricks@.len() == 64 && forall|s: int|
                0 <= s < 64 ==> brick_valid(#[trigger] bricks@[s], dim, nc, nd),
            NodeContent::UniformLeaf(brick) => j == 1 && (brick is Empty || brick is Solid)
                && brick_valid(brick, dim, nc, nd),
            _ => true,
        }
        &&& brick_valid(self.node_mips@[k], dim, nc, nd)
    }

    /// The palette index of the voxel at the position
    pub open spec fn voxel_at(&self, p: V3c<u32>) -> u32 {
        self.node_voxel(0, self.root_cube(), p)
    }

    /// The color and user data at a position; nothing outside of the tree
    pub open spec fn entry_at(&self, p: V3c<u32>) -> (Option<Albedo>, Option<T>) {
        if cube_contains(self.root_cube(), p) {
            pix_parts(self.voxel_at(p), self.colors(), self.datas())
        } else {
            (None, None)
        }
    }
}

/// `n` is a power of `base` (`base^0 == 1` included)
pub open spec fn is_power_of(n: nat, base: nat) -> bool
    decreases n,
{
    if n == 1 {
        true
    } else if n == 0 || base < 2 || n % base != 0 {
        false
    } else {
        proof {
            vstd::arithmetic::div_mod::lemma_div_decreases(n as int, base as int);
        }
        is_power_of(n / base, base)
    }
}

/// `base^k`
pub open spec fn power(base: nat, k: nat) -> nat
    decreases k,
{
    if k == 0 {
        1
    } else {
        base * power(base, (k - 1) as nat)
    }
}

pub(crate) proof fn lemma_pow4_is_power(k: nat)
    ensures
        pow4(k) == power(4, k),
        pow4(k) >= 1,
    decreases k,
{
    if k > 0 {
        lemma_pow4_is_power((k - 1) as nat);
    }
}

/// The exponent `k` with `n == base^k`, if there is one
pub(crate) fn exact_log(n: u32, base: u32) -> (r: Option<u32>)
    requires
        base >= 2,
    ensures
        r is Some <==> is_power_of(n as nat, base as nat),
        r matches Some(k) ==> n == power(base as nat, k as nat),
{
    let mut m = n;
    let mut k: u32 = 0;
    assert(power(base as nat, 0) == 1);
    assert(n == n * 1);
    while m > 1 && m % base == 0
        invariant
            base >= 2,
            m <= n,
            k <= n,
            is_power_of(n as nat, base as nat) == is_power_of(m as nat, base as nat),
            n == m * power(base as nat, k as nat),
        decreases m,
    {
        let ghost old_m = m;
        m = m / base;
        proof {
            vstd::arithmetic::div_mod::lemma_div_decreases(old_m as int, base as int);
            assert(old_m == m * base) by {
                vstd::arithmetic::div_mod::lemma_fundamental_div_mod(old_m as int, base as int);
                assert(base * m == m * base) by (nonlinear_arith);
            }
            assert(m >= 1) by (nonlinear_arith)
                requires old_m == m * base, old_m > 1, m >= 0;
            assert(n == m * (base * power(base as nat, k as nat))) by (nonlinear_arith)
                requires n == old_m * power(base as nat, k as nat), old_m == m * base;
            assert(power(base as nat, (k + 1) as nat) == base * power(base as nat, k as nat));
            assert(k + 1 <= n) by {
                assert(power(base as nat, k as nat) >= 1) by {
                    lemma_power_pos(base as nat, k as nat);
                }
                assert(m >= 1);
                assert(n >= old_m);
                lemma_power_ge_exp(base as nat, (k + 1) as nat);
                assert(n == m * power(base as nat, (k + 1) as nat));
                assert(m * power(base as nat, (k + 1) as nat) >= power(base as nat, (k + 1) as nat)) by (nonlinear_arith)
                    requires m >= 1;
            }
        }
        k = k + 1;
    }
    if m == 1 {
        Some(k)
    } else {
        None
    }
}

proof fn lemma_power_pos(base: nat, k: nat)
    requires
        base >= 1,
    ensures
        power(base, k) >= 1,
    decreases k,
{
    if k > 0 {
        lemma_power_pos(base, (k - 1) as nat);
        assert(base * power(base, (k - 1) as nat) >= 1) by (nonlinear_arith)
            requires base >= 1, power(base, (k - 1) as nat) >= 1;
    }
}

proof fn lemma_power_ge_exp(base: nat, k: nat)
    requires
        base >= 2,
    ensures
        power(base, k) >= k,
    decreases k,
{
    if k > 0 {
        lemma_power_ge_exp(base, (k - 1) as nat);
        lemma_power_pos(base, (k - 1) as nat);
        assert(base * power(base, (k - 1) as nat) >= power(base, (k - 1) as nat) + 1) by (nonlinear_arith)
            requires base >= 2, power(base, (k - 1) as nat) >= 1;
    }
}

/// The brick dimension is not a power of two (or the size is zero)
pub open spec fn bad_brick_dimension(size: u32, brick_dim: u32) -> bool {
    size == 0 || !is_power_of(brick_dim as nat, 2)
}

/// The size is not the brick dimension times a power of four
pub open spec fn bad_size(size: u32, brick_dim: u32) -> bool {
    brick_dim > size || size % brick_dim != 0 || !is_power_of((size / brick_dim) as nat, 4)
}

/// The size can not hold a node of 4x4x4 bricks
pub open spec fn bad_structure(size: u32, brick_dim: u32) -> bool {
    size < brick_dim * 4
}

pub(crate) proof fn lemma_level_size(dim: nat, j: nat)
    requires
        dim >= 1,
        j >= 1,
    ensures
        dim * pow4(j) >= 4,
        (dim * pow4(j)) % 4 == 0,
        (dim * pow4(j)) / 4 == dim * pow4((j - 1) as nat),
        dim * pow4(j) >= 4 * dim,
{
    lemma_pow4_is_power((j - 1) as nat);
    let q = pow4((j - 1) as nat);
    assert(pow4(j) == 4 * q);
    assert(dim * (4 * q) == 4 * (dim * q)) by (nonlinear_arith);
    assert(dim * q >= 1) by (nonlinear_arith)
        requires dim >= 1, q >= 1;
    assert(dim * q >= dim) by (nonlinear_arith)
        requires dim >= 1, q >= 1;
    vstd::arithmetic::div_mod::lemma_div_multiples_vanish((dim * q) as int, 4);
    vstd::arithmetic::div_mod::lemma_mod_multiples_basic((dim * q) as int, 4);
}

/// The entry a palette index refers to
pub fn pix_get_ref<'a, T>(pix: u32, colors: &'a Vec<Albedo>, datas: &'a Vec<T>) -> (r: BoxTreeEntry<'a, T>)
    ensures
        entry_parts(r) == pix_parts(pix, colors@, datas@),
{
    let ci = (pix >> 16u32) as usize;
    let di = (pix & 0xFFFFu32) as usize;
    if ci < colors.len() {
        if di < datas.len() {
            BoxTreeEntry::Complex(&colors[ci], &datas[di])
        } else {
            BoxTreeEntry::Visual(&colors[ci])
        }
    } else if di < datas.len() {
        BoxTreeEntry::Informative(&datas[di])
    } else {
        BoxTreeEntry::Empty
    }
}

/// The voxel of a brick laid over `cell` at the position
fn brick_voxel_exec(brick: &BrickData, cell: &Cube, position: &V3c<u32>, dim: u32) -> (r: u32)
    requires
        dim >= 1,
        cube_contains(*cell, *position),
        brick matches BrickData::Parted(v) ==> v@.len() == dim * dim * dim,
    ensures
        r == brick_voxel(*brick, *cell, *position, dim as nat),
{
    match brick {
        BrickData::Empty => EMPTY_MARKER,
        BrickData::Solid(v) => *v,
        BrickData::Parted(v) => {
            let mi = crate::spatial::matrix_index_for(cell, position, dim);
            let d = dim as usize;
            let n = v.len();
            assert(n == d * d * d);
            let flat = crate::spatial::flat_projection(mi.x, mi.y, mi.z, d);
            v[flat]
        },
    }
}

impl<T> BoxTree<T> {
    /// Key of the child of a node at the given sectant, or `EMPTY_MARKER`
    pub(crate) fn child(&self, key: usize, sectant: u8) -> (r: usize)
        requires
            self.wf(),
            key < self.nodes@.len(),
            sectant < 64,
        ensures
            r == self.child_key(key as int, sectant as int),
            r as int == EMPTY_MARKER || r < self.nodes@.len(),
    {
        proof {
            assert(self.node_wf(key as int));
        }
        match &self.node_children[key] {
            NodeChildren::Children(v) => v[sectant as usize] as usize,
            _ => EMPTY_MARKER as usize,
        }
    }

    /// The deepest node at the position reachable from the given node;
    /// `node_bounds` is updated to the bounds of that node
    pub(crate) fn get_node_internal(&self, current_node_key: usize, node_bounds: &mut Cube, position: &V3c<u32>) -> (r: Option<usize>)
        requires
            self.wf(),
            current_node_key < self.nodes@.len(),
            *old(node_bounds) == self.node_bounds@[current_node_key as int],
            cube_contains(*old(node_bounds), *position),
        ensures
            r matches Some(k) && k < self.nodes@.len() && *final(node_bounds) == self.node_bounds@[k as int]
                && cube_contains(*final(node_bounds), *position)
                && self.node_voxel(k as int, *final(node_bounds), *position) == self.node_voxel(
                    current_node_key as int, *old(node_bounds), *position)
                && !(self.nodes@[k as int] is Internal && 0 <= self.child_key(k as int, sectant_of(*final(node_bounds), *position)) < self.nodes@.len()),
    {
        let mut key = current_node_key;
        let ghost start = *node_bounds;
        loop
            invariant
                self.wf(),
                key < self.nodes@.len(),
                *node_bounds == self.node_bounds@[key as int],
                cube_contains(*node_bounds, *position),
                self.node_voxel(key as int, *node_bounds, *position) == self.node_voxel(current_node_key as int, start, *position),
            ensures
                key < self.nodes@.len(),
                *node_bounds == self.node_bounds@[key as int],
                cube_contains(*node_bounds, *position),
                self.node_voxel(key as int, *node_bounds, *position) == self.node_voxel(current_node_key as int, start, *position),
                !(self.nodes@[key as int] is Internal && 0 <= self.child_key(key as int, sectant_of(*node_bounds, *position)) < self.nodes@.len()),
            decreases node_bounds.size,
        {
            proof {
                assert(self.node_wf(key as int));
                lemma_level_size(self.brick_dim as nat, self.node_levels@[key as int]);
            }
            match &self.nodes[key] {
                NodeContent::Internal(_) => {
                    let s = node_bounds.sectant_for(position);
                    let c = self.child(key, s);
                    if c < self.nodes.len() {
                        proof {
                            lemma_sectant_of(*node_bounds, *position);
                        }
                        key = c;
                        *node_bounds = node_bounds.child_bounds_for(s);
                    } else {
                        break;
                    }
                },
                _ => {
                    break;
                },
            }
        }
        Some(key)
    }

    /// The palette index of the voxel at the position inside the given node
    pub(crate) fn get_internal(&self, current_node_key: usize, current_bounds: Cube, position: &V3c<u32>) -> (r: u32)
        requires
            self.wf(),
            current_node_key < self.nodes@.len(),
            current_bounds == self.node_bounds@[current_node_key as int],
        ensures
            r == if cube_contains(current_bounds, *position) {
                self.node_voxel(current_node_key as int, current_bounds, *position)
            } else {
                EMPTY_MARKER
            },
    {
        if !current_bounds.contains(position) {
            return EMPTY_MARKER;
        }
        let mut bounds = current_bounds;
        let key = match self.get_node_internal(current_node_key, &mut bounds, position) {
            Some(k) => k,
            None => { return EMPTY_MARKER; },
        };
        proof {
            assert(self.node_wf(key as int));
            lemma_level_size(self.brick_dim as nat, self.node_levels@[key as int]);
        }
        match &self.nodes[key] {
            NodeContent::Nothing => EMPTY_MARKER,
            NodeContent::Leaf(bricks) => {
                let s = bounds.sectant_for(position);
                proof {
                    lemma_sectant_of(bounds, *position);
                    assert(brick_valid(bricks@[s as int], self.brick_dim as nat, self.voxel_color_palette@.len(), self.voxel_data_palette@.len()));
                }
                let cell = bounds.child_bounds_for(s);
                let v = brick_voxel_exec(&bricks[s as usize], &cell, position, self.brick_dim);
                if v != EMPTY_MARKER {
                    v
                } else {
                    EMPTY_MARKER
                }
            },
            NodeContent::UniformLeaf(brick) => brick_voxel_exec(brick, &bounds, position, self.brick_dim),
            NodeContent::Internal(_) => EMPTY_MARKER,
        }
    }

    /// Getter function for the boxtree
    /// * Returns the color and data at the given position, if there is any
    pub fn get(&self, position: &V3c<u32>) -> (r: BoxTreeEntry<'_, T>)
        requires
            self.wf(),
        ensures
            entry_parts(r) == self.entry_at(*position),
    {
        let root = Cube::root_bounds(self.boxtree_size);
        let v = self.get_internal(0, root, position);
        proof {
            lemma_pix_empty();
        }
        pix_get_ref(v, &self.voxel_color_palette, &self.voxel_data_palette)
    }

    /// Tells the edge length of the cube covered by the boxtree
    pub fn get_size(&self) -> (r: u32)
        ensures
            r == self.spec_size(),
    {
        self.boxtree_size
    }
}

/// Each tree of the run came from the one before by an operation that keeps the size
pub open spec fn steps_keep_size<T>(run: Seq<BoxTree<T>>) -> bool {
    forall|i: int| 1 <= i < run.len() ==> #[trigger] run[i].spec_size() == run[i - 1].spec_size()
}

/// A tree keeps the size it was made with: every operation that changes a tree (inserting,
/// recalculating MIP maps, any change to the MIP map strategy) states that it keeps the size,
/// so over any run of such operations each tree has the size of the first
pub proof fn lemma_size_kept_over_run<T>(run: Seq<BoxTree<T>>)
    requires
        steps_keep_size(run),
    ensures
        forall|i: int| 0 <= i < run.len() ==> #[trigger] run[i].spec_size() == run[0].spec_size(),
    decreases run.len(),
{
    if run.len() > 1 {
        let shorter = run.drop_last();
        assert forall|i: int| 1 <= i < shorter.len() implies #[trigger] shorter[i].spec_size()
            == shorter[i - 1].spec_size() by {
            assert(run[i].spec_size() == run[i - 1].spec_size());
        }
        lemma_size_kept_over_run(shorter);
        assert forall|i: int| 0 <= i < run.len() implies #[trigger] run[i].spec_size() == run[0].spec_size() by {
            if i < run.len() - 1 {
                assert(shorter[i] == run[i]);
            } else {
                assert(run[i].spec_size() == run[i - 1].spec_size());
                assert(shorter[i - 1] == run[i - 1]);
            }
        }
    }
}

impl<T> BoxTree<T> {
    /// The key of the root node
    pub const ROOT_NODE_KEY: u32 = 0;

    /// Creates an empty boxtree covering a cube of the given size
    /// * `brick_dimension` - must be one of `(2^x)` and smaller than the size of the boxtree
    /// * `size` - must be `brick_dimension * (4^x)`, e.g: brick_dimension == 2 --> size can be 8,32,128...
    pub fn new(size: u32, brick_dimension: u32) -> (res: Result<Self, OctreeError>)
        ensures
            bad_brick_dimension(size, brick_dimension) ==> res == Err::<Self, OctreeError>(
                OctreeError::InvalidBrickDimension(brick_dimension),
            ),
            !bad_brick_dimension(size, brick_dimension) && bad_size(size, brick_dimension) ==> res
                == Err::<Self, OctreeError>(OctreeError::InvalidSize(size)),
            !bad_brick_dimension(size, brick_dimension) && !bad_size(size, brick_dimension)
                && bad_structure(size, brick_dimension) ==> (res matches Err(OctreeError::InvalidStructure(m))
                && m@ == "Octree size must be larger, than BOX_NODE_DIMENSION * brick dimension"@),
            !bad_brick_dimension(size, brick_dimension) && !bad_size(size, brick_dimension)
                && !bad_structure(size, brick_dimension) ==> (res matches Ok(t) && t.wf()
                && t.spec_size() == size && t.spec_brick_dim() == brick_dimension
                && t.spec_auto_simplify() && t.root_is_nothing() && t.node_count() == 1
                && t.mips_empty() && t.has_node_room() && t.colors().len() == 0
                && t.datas().len() == 0 && !t.strategy().spec_enabled()
                && t.strategy().methods() == strategy::default_methods()
                && t.strategy().thresholds() == strategy::default_thresholds()
                && forall|p: V3c<u32>| #[trigger] t.entry_at(p) == (None::<Albedo>, None::<T>)),
    {
        let brick_log = exact_log(brick_dimension, 2);
        if size == 0 || brick_log.is_none() {
            return Err(OctreeError::InvalidBrickDimension(brick_dimension));
        }
        if brick_dimension > size || size % brick_dimension != 0 {
            return Err(OctreeError::InvalidSize(size));
        }
        let levels = match exact_log(size / brick_dimension, 4) {
            Some(k) => k,
            None => { return Err(OctreeError::InvalidSize(size)); },
        };
        if (size as u64) < (brick_dimension as u64) * 4 {
            let message = "Octree size must be larger, than BOX_NODE_DIMENSION * brick dimension".to_string();
            proof {
                broadcast use vstd::string::group_string_axioms;
            }
            return Err(OctreeError::InvalidStructure(message));
        }
        proof {
            lemma_pow4_is_power(levels as nat);
            vstd::arithmetic::div_mod::lemma_fundamental_div_mod(size as int, brick_dimension as int);
            assert(size == brick_dimension * pow4(levels as nat));
            if levels == 0 {
                assert(pow4(0) == 1);
                assert(brick_dimension * pow4(0) == brick_dimension * 1);
                assert(size == brick_dimension);
            }
            lemma_pix_empty();
        }
        let mut nodes: Vec<NodeContent> = Vec::new();
        nodes.push(NodeContent::Nothing);
        let mut node_children: Vec<NodeChildren> = Vec::new();
        node_children.push(NodeChildren::NoChildren);
        let mut node_mips: Vec<BrickData> = Vec::new();
        node_mips.push(BrickData::Empty);
        let mut root_bounds: Vec<Cube> = Vec::new();
        root_bounds.push(Cube { min_position: V3c { x: 0u32, y: 0u32, z: 0u32 }, size });
        let ghost root_levels = seq![levels as nat];
        let tree = BoxTree {
            auto_simplify: true,
            boxtree_size: size,
            brick_dim: brick_dimension,
            nodes,
            node_children,
            node_mips,
            voxel_color_palette: Vec::new(),
            map_to_color_index_in_palette: HashMap::new(),
            voxel_data_palette: Vec::new(),
            mip_map_strategy: MIPMapStrategy::default(),
            node_bounds: root_bounds,
            node_levels: Ghost(root_levels),
        };
        proof {
            assert(tree.node_wf(0));
            assert forall|p: V3c<u32>| #[trigger] tree.entry_at(p) == (None::<Albedo>, None::<T>) by {
                assert(tree.voxel_at(p) == EMPTY_MARKER);
            }
        }
        Ok(tree)
    }
}

impl<T> BoxTree<T> {
    /// The voxel value of a node only depends on the nodes below it which contain the position
    pub(crate) proof fn lemma_voxel_frame_size(t1: &Self, t2: &Self, key: int, b: Cube, p: V3c<u32>)
        requires
            t1.wf(),
            t2.nodes@.len() < EMPTY_MARKER,
            t1.nodes@.len() <= t2.nodes@.len(),
            t1.brick_dim == t2.brick_dim,
            0 <= key < t1.nodes@.len(),
            b == t1.node_bounds@[key],
            cube_contains(b, p),
            forall|k: int|
                0 <= k < t1.nodes@.len() && cube_contains(#[trigger] t1.node_bounds@[k], p)
                    && t1.node_bounds@[k].size <= b.size ==> t2.nodes@[k] == t1.nodes@[k]
                    && t2.node_children@[k] == t1.node_children@[k],
        ensures
            t1.node_voxel(key, b, p) == t2.node_voxel(key, b, p),
        decreases b.size,
    {
        assert(t1.node_wf(key));
        assert(t2.nodes@[key] == t1.nodes@[key]);
        if cube_splittable(b) {
            let s = sectant_of(b, p);
            match t1.nodes@[key] {
                NodeContent::Internal(_) => {
                    lemma_sectant_of(b, p);
                    let c = t1.child_key(key, s);
                    assert(t2.child_key(key, s) == c);
                    if 0 <= c < t1.nodes@.len() {
                        assert(t1.node_bounds@[c] == child_cube(b, s));
                        assert(t1.node_wf(c));
                        lemma_level_size(t1.brick_dim as nat, t1.node_levels@[key]);
                        Self::lemma_voxel_frame_size(t1, t2, c, child_cube(b, s), p);
                    }
                },
                _ => {},
            }
        }
    }

    /// The voxel value of a node whose cube does not hold `pos` is kept by changes only made
    /// to nodes whose cubes hold `pos`
    pub(crate) proof fn lemma_voxel_frame_disjoint(t1: &Self, t2: &Self, key: int, b: Cube, p: V3c<u32>, pos: V3c<u32>)
        requires
            t1.wf(),
            t2.nodes@.len() < EMPTY_MARKER,
            t1.nodes@.len() <= t2.nodes@.len(),
            t1.brick_dim == t2.brick_dim,
            0 <= key < t1.nodes@.len(),
            b == t1.node_bounds@[key],
            cube_contains(b, p),
            !cube_contains(b, pos),
            forall|k: int|
                0 <= k < t1.nodes@.len() && !cube_contains(#[trigger] t1.node_bounds@[k], pos)
                    ==> t2.nodes@[k] == t1.nodes@[k] && t2.node_children@[k] == t1.node_children@[k],
        ensures
            t1.node_voxel(key, b, p) == t2.node_voxel(key, b, p),
        decreases b.size,
    {
        assert(t1.node_wf(key));
        assert(t2.nodes@[key] == t1.nodes@[key]);
        if cube_splittable(b) {
            let s = sectant_of(b, p);
            match t1.nodes@[key] {
                NodeContent::Internal(_) => {
                    lemma_sectant_of(b, p);
                    let c = t1.child_key(key, s);
                    assert(t2.child_key(key, s) == c);
                    if 0 <= c < t1.nodes@.len() {
                        assert(t1.node_bounds@[c] == child_cube(b, s));
                        assert(t1.node_wf(c));
                        lemma_level_size(t1.brick_dim as nat, t1.node_levels@[key]);
                        lemma_child_cube(b, s);
                        Self::lemma_voxel_frame_disjoint(t1, t2, c, child_cube(b, s), p, pos);
                    }
                },
                _ => {},
            }
        }
    }

    /// Voxel values are valid palette indices
    pub(crate) proof fn lemma_node_voxel_valid(&self, key: int, b: Cube, p: V3c<u32>)
        requires
            self.wf(),
            0 <= key < self.nodes@.len(),
            b == self.node_bounds@[key],
            cube_contains(b, p),
        ensures
            pix_valid(self.node_voxel(key, b, p), self.voxel_color_palette@.len(), self.voxel_data_palette@.len()),
        decreases b.size,
    {
        lemma_pix_empty();
        assert(self.node_wf(key));
        if cube_splittable(b) {
            let s = sectant_of(b, p);
            match self.nodes@[key] {
                NodeContent::Internal(_) => {
                    let c = self.child_key(key, s);
                    lemma_sectant_of(b, p);
                    if 0 <= c < self.nodes@.len() {
                        assert(self.node_bounds@[c] == child_cube(b, s));
                        lemma_level_size(self.brick_dim as nat, self.node_levels@[key]);
                        self.lemma_node_voxel_valid(c, child_cube(b, s), p);
                    }
                },
                NodeContent::Leaf(bricks) => {
                    if 0 <= s < bricks@.len() {
                        assert(brick_valid(bricks@[s], self.brick_dim as nat, self.voxel_color_palette@.len(), self.voxel_data_palette@.len()));
                        lemma_brick_voxel_valid(bricks@[s], child_cube(b, s), p, self.brick_dim as nat, self.voxel_color_palette@.len(), self.voxel_data_palette@.len());
                    }
                },
                NodeContent::UniformLeaf(brick) => {
                    lemma_brick_voxel_valid(brick, b, p, self.brick_dim as nat, self.voxel_color_palette@.len(), self.voxel_data_palette@.len());
                },
                _ => {},
            }
        }
    }
}

/// Voxels of valid bricks are valid palette indices
pub(crate) proof fn lemma_brick_voxel_valid(brick: BrickData, cell: Cube, p: V3c<u32>, dim: nat, nc: nat, nd: nat)
    requires
        brick_valid(brick, dim, nc, nd),
    ensures
        pix_valid(brick_voxel(brick, cell, p, dim), nc, nd),
{
    lemma_pix_empty();
    match brick {
        BrickData::Parted(v) => {
            let i = brick_index_of(cell, p, dim as int);
            if 0 <= i < v@.len() {
                assert(pix_valid(v@[i], nc, nd));
            }
        },
        _ => {},
    }
}

/// A valid palette index refers to the same parts when the palettes grow at their ends
pub(crate) proof fn lemma_pix_parts_grow<T>(pix: u32, c1: Seq<Albedo>, d1: Seq<T>, c2: Seq<Albedo>, d2: Seq<T>)
    requires
        pix_valid(pix, c1.len(), d1.len()),
        c1.len() <= c2.len() < EMPTY_INDEX,
        d1.len() <= d2.len() < EMPTY_INDEX,
        c1 == c2.subrange(0, c1.len() as int),
        d1 == d2.subrange(0, d1.len() as int),
    ensures
        pix_parts(pix, c1, d1) == pix_parts(pix, c2, d2),
{
    if pix_color_index(pix) < c1.len() {
        assert(c1[pix_color_index(pix) as int] == c2[pix_color_index(pix) as int]);
    }
    if pix_data_index(pix) < d1.len() {
        assert(d1[pix_data_index(pix) as int] == d2[pix_data_index(pix) as int]);
    }
}

/// A valid brick stays valid when the palettes grow
pub(crate) proof fn lemma_brick_valid_grow(b: BrickData, dim: nat, nc1: nat, nd1: nat, nc2: nat, nd2: nat)
    requires
        brick_valid(b, dim, nc1, nd1),
        nc1 <= nc2,
        nd1 <= nd2,
    ensures
        brick_valid(b, dim, nc2, nd2),
{
    match b {
        BrickData::Parted(v) => {
            assert forall|i: int| 0 <= i < v@.len() implies pix_valid(#[trigger] v@[i], nc2, nd2) by {
                assert(pix_valid(v@[i], nc1, nd1));
            }
        },
        _ => {},
    }
}

impl<T> BoxTree<T> {
    /// The second tree keeps what the first one knows of its nodes, and may have more nodes
    pub(crate) open spec fn extends_nodes(&self, t1: &Self) -> bool {
        &&& t1.nodes@.len() <= self.nodes@.len()
        &&& self.node_bounds@.len() == self.nodes@.len()
        &&& self.node_levels@.len() == self.nodes@.len()
        &&& forall|i: int| 0 <= i < t1.nodes@.len() ==> #[trigger] self.node_bounds@[i] == t1.node_bounds@[i]
        &&& forall|i: int| 0 <= i < t1.nodes@.len() ==> #[trigger] self.node_levels@[i] == t1.node_levels@[i]
        &&& self.brick_dim == t1.brick_dim
        &&& self.boxtree_size == t1.boxtree_size
    }

    /// A node that did not change stays well formed in a tree with more nodes and larger palettes
    pub(crate) proof fn lemma_node_wf_stable(t1: &Self, t2: &Self, k: int)
        requires
            0 <= k < t1.nodes@.len(),
            t1.node_bounds@.len() == t1.nodes@.len(),
            t1.node_levels@.len() == t1.nodes@.len(),
            t1.node_wf(k),
            t2.extends_nodes(t1),
            t2.nodes@[k] == t1.nodes@[k],
            t2.node_children@[k] == t1.node_children@[k],
            t2.node_mips@[k] == t1.node_mips@[k],
            t1.voxel_color_palette@.len() <= t2.voxel_color_palette@.len(),
            t1.voxel_data_palette@.len() <= t2.voxel_data_palette@.len(),
        ensures
            t2.node_wf(k),
    {
        let dim = t1.brick_dim as nat;
        let nc1 = t1.voxel_color_palette@.len();
        let nd1 = t1.voxel_data_palette@.len();
        let nc2 = t2.voxel_color_palette@.len();
        let nd2 = t2.voxel_data_palette@.len();
        lemma_brick_valid_grow(t1.node_mips@[k], dim, nc1, nd1, nc2, nd2);
        match t1.node_children@[k] {
            NodeChildren::Children(v) => {
                assert forall|s: int| 0 <= s < 64 implies #[trigger] v@[s] == EMPTY_MARKER || (0 < v@[s] < t2.nodes@.len()
                    && t2.node_bounds@[v@[s] as int] == child_cube(t2.node_bounds@[k], s)
                    && t2.node_levels@[v@[s] as int] + 1 == t2.node_levels@[k]) by {
                    if v@[s] != EMPTY_MARKER {
                        assert(0 < v@[s] < t1.nodes@.len());
                    }
                }
            },
            _ => {},
        }
        match t1.nodes@[k] {
            NodeContent::Leaf(bricks) => {
                assert forall|s: int| 0 <= s < 64 implies brick_valid(#[trigger] bricks@[s], dim, nc2, nd2) by {
                    lemma_brick_valid_grow(bricks@[s], dim, nc1, nd1, nc2, nd2);
                }
            },
            NodeContent::UniformLeaf(brick) => {
                lemma_brick_valid_grow(brick, dim, nc1, nd1, nc2, nd2);
            },
            _ => {},
        }
    }
}

pub(crate) proof fn lemma_pow4_mono(a: nat, b: nat)
    requires
        a <= b,
    ensures
        pow4(a) <= pow4(b),
    decreases b,
{
    if a < b {
        lemma_pow4_mono(a, (b - 1) as nat);
        lemma_pow4_is_power((b - 1) as nat);
    }
}

/// A node of a tree fitting into the `u32` range is at a level below 17
pub(crate) proof fn lemma_level_bound(dim: nat, j: nat)
    requires
        dim >= 1,
        dim * pow4(j) <= u32::MAX + 1,
    ensures
        j < 17,
{
    if j >= 17 {
        lemma_pow4_mono(17, j);
        reveal_with_fuel(pow4, 18);
        assert(pow4(17) == 17179869184nat);
        assert(dim * pow4(j) >= pow4(j)) by (nonlinear_arith)
            requires dim >= 1;
    }
}

impl<T> BoxTree<T> {
    /// The tree has room for the nodes one insertion may add
    pub closed spec fn has_node_room(&self) -> bool {
        self.nodes@.len() + 17 < EMPTY_MARKER
    }

    /// What a well formed tree guarantees: a root and fewer nodes than the empty marker, bricks of
    /// at least one voxel, and palettes whose indices stay below the empty index
    pub proof fn lemma_wf_bounds(&self)
        requires
            self.wf(),
        ensures
            1 <= self.node_count() < EMPTY_MARKER,
            self.spec_brick_dim() >= 1,
            self.colors().len() < EMPTY_INDEX,
            self.datas().len() < EMPTY_INDEX,
    {
    }

    /// A tree has room for one more insertion while it holds fewer than `EMPTY_MARKER - 17` nodes
    pub proof fn lemma_has_node_room(&self)
        ensures
            self.has_node_room() <==> self.node_count() + 17 < EMPTY_MARKER,
    {
    }

    /// The occupancy bitmap a node stores: the one of an internal node, or the one kept beside
    /// the bricks of a leaf; none for an empty node
    pub closed spec fn stored_bits(&self, key: int) -> u64 {
        match self.nodes@[key] {
            NodeContent::Internal(b) => b,
            NodeContent::Nothing => 0,
            _ => match self.node_children@[key] {
                NodeChildren::OccupancyBitmap(b) => b,
                _ => 0,
            },
        }
    }

    /// The occupancy bitmap a node stores
    pub fn stored_occupied_bits(&self, key: usize) -> (r: u64)
        requires
            self.wf(),
            key < self.node_count(),
        ensures
            r == self.stored_bits(key as int),
    {
        match &self.nodes[key] {
            NodeContent::Internal(b) => *b,
            NodeContent::Nothing => 0,
            _ => match &self.node_children[key] {
                NodeChildren::OccupancyBitmap(b) => *b,
                _ => 0,
            },
        }
    }

    /// The node tables of a tree hold one entry for each node
    pub(crate) proof fn lemma_wf_lens(&self)
        requires
            self.wf(),
        ensures
            self.node_count() == self.nodes@.len(),
            self.node_mips@.len() == self.nodes@.len(),
            self.node_children@.len() == self.nodes@.len(),
            self.nodes@.len() < EMPTY_MARKER,
    {
    }

    /// The strategy of a tree is the one it keeps
    pub(crate) proof fn lemma_strategy_field(&self)
        ensures
            self.strategy() == self.mip_map_strategy,
    {
    }

    /// A leaf node of a tree holds 64 bricks
    pub(crate) proof fn lemma_leaf_len(&self, key: int)
        requires
            self.wf(),
            0 <= key < self.nodes@.len(),
        ensures
            self.nodes@[key] matches NodeContent::Leaf(b) ==> b@.len() == 64,
    {
        assert(self.node_wf(key));
    }

    /// Every MIP map of the tree is empty
    pub closed spec fn mips_empty(&self) -> bool {
        forall|k: int| 0 <= k < self.node_mips@.len() ==> #[trigger] self.node_mips@[k] is Empty
    }

    /// Finds the color in the color palette, or adds it at its end; gives the palette index
    /// of a voxel with only that color. Fails when the palette is full.
    pub(crate) fn add_albedo_to_palette(&mut self, albedo: &Albedo) -> (r: Option<u32>)
        requires
            old(self).wf(),
        ensures
            final(self).wf(),
            final(self).nodes@ == old(self).nodes@,
            final(self).node_children@ == old(self).node_children@,
            final(self).node_mips@ == old(self).node_mips@,
            final(self).node_bounds@ == old(self).node_bounds@,
            final(self).node_levels@ == old(self).node_levels@,
            final(self).brick_dim == old(self).brick_dim,
            final(self).boxtree_size == old(self).boxtree_size,
            final(self).auto_simplify == old(self).auto_simplify,
            final(self).mip_map_strategy == old(self).mip_map_strategy,
            final(self).voxel_data_palette@ == old(self).voxel_data_palette@,
            old(self).voxel_color_palette@.contains(*albedo) ==> final(self).voxel_color_palette@ == old(self).voxel_color_palette@,
            !old(self).voxel_color_palette@.contains(*albedo) ==> final(self).voxel_color_palette@ == if old(self).voxel_color_palette@.len() + 1 < EMPTY_INDEX {
                old(self).voxel_color_palette@.push(*albedo)
            } else {
                old(self).voxel_color_palette@
            },
            r is None <==> (!old(self).voxel_color_palette@.contains(*albedo) && old(self).voxel_color_palette@.len() + 1 >= EMPTY_INDEX),
            r matches Some(pix) ==> pix_valid(pix, final(self).voxel_color_palette@.len(), final(self).voxel_data_palette@.len())
                && pix_parts(pix, final(self).voxel_color_palette@, final(self).voxel_data_palette@) == (Some(*albedo), None::<T>)
                && pix != EMPTY_MARKER,
            r matches Some(pix) ==> exists|i: int| 0 <= i < final(self).voxel_color_palette@.len()
                && final(self).voxel_color_palette@[i] == *albedo
                && (forall|j: int| 0 <= j < i ==> #[trigger] final(self).voxel_color_palette@[j] != *albedo)
                && pix == pix_visual_spec(i as u32),
    {
        let key = color_key_exec(albedo);
        let found = match self.map_to_color_index_in_palette.get(&key) {
            Some(found) => Some(*found),
            None => None,
        };
        if let Some(i) = found {
            proof {
                lemma_pix_visual(i as u32);
                assert(self.voxel_color_palette@[i as int] == *albedo);
                assert((i as u16) as u32 == i as u32);
            }
            Some(pix_visual(i as u16))
        } else if self.voxel_color_palette.len() + 1 < EMPTY_INDEX as usize {
            let i = self.voxel_color_palette.len();
            proof {
                lemma_pix_visual(i as u32);
                assert(!old(self).voxel_color_palette@.contains(*albedo));
                lemma_palette_index_push(self.voxel_color_palette@, self.map_to_color_index_in_palette@, *albedo);
            }
            self.voxel_color_palette.push(*albedo);
            self.map_to_color_index_in_palette.insert(key, i);
            proof {
                assert(self.voxel_color_palette@[i as int] == *albedo);
                assert((i as u16) as u32 == i as u32);
                assert forall|j: int| 0 <= j < i implies #[trigger] self.voxel_color_palette@[j] != *albedo by {
                    assert(self.voxel_color_palette@[j] == old(self).voxel_color_palette@[j]);
                }
                assert forall|k: int| 0 <= k < self.nodes@.len() implies self.node_wf(k) by {
                    assert(old(self).node_wf(k));
                    Self::lemma_node_wf_stable(old(self), self, k);
                }
            }
            Some(pix_visual(i as u16))
        } else {
            proof {
                assert(!old(self).voxel_color_palette@.contains(*albedo));
            }
            None
        }
    }
}

} // verus!
