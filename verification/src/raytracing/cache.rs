//! The cache of nodes and bricks a view keeps for the GPU: which node of the tree sits at
//! which index of the render data, which brick slot belongs to which node, and how nodes
//! and bricks are written into and erased from the render data.

use vstd::prelude::*;
use std::collections::{HashMap, HashSet};
use bimap::BiHashMap;
use crate::boxtree::BoxTree;
use crate::boxtree::types::{BrickData, NodeContent, EMPTY_MARKER};
use crate::boxtree::render_data::{boxtree_properties, inject_node_properties, node_type_bits, properties_word};
use crate::boxtree::iterate::{clipped_update, execute_for_relevant_sectants, lemma_updates_in_children, present_updates, probes, update_beyond, update_in_child, SectantUpdate};
use crate::spatial::{child_cube, cube_fits, cube_splittable, Cube, V3c};
use crate::raytracing::upload_queue::{center_node_path, center_parent_from, center_path_from, lemma_center_parent_cube, lemma_center_path_linked, root_request};

verus! {

broadcast use {
    vstd::std_specs::hash::group_hash_axioms,
    vstd::std_specs::hash::axiom_usize_obeys_hash_table_key_model,
    vstd::std_specs::hash::axiom_random_state_builds_valid_hashers,
};

/// `BiHashMap` of the `bimap` crate, a one-to-one map kept as two hash maps; its contents are
/// only known through `bimap_pairs`
#[verifier::external_type_specification]
#[verifier::external_body]
#[verifier::reject_recursive_types(L)]
#[verifier::reject_recursive_types(R)]
#[verifier::reject_recursive_types(LS)]
#[verifier::reject_recursive_types(RS)]
pub struct ExBiHashMap<L, R, LS, RS>(BiHashMap<L, R, LS, RS>);

/// The left-right pairs a bimap holds, as a map from each left value to its right value
pub uninterp spec fn bimap_pairs(m: BiHashMap<usize, u64>) -> Map<usize, u64>;

/// The pairs after inserting a pair: the pairs holding either value are replaced by it
pub open spec fn pairs_after_insert(m: Map<usize, u64>, left: usize, right: u64) -> Map<usize, u64> {
    Map::new(
        |l: usize| l == left || (m.contains_key(l) && m[l] != right),
        |l: usize| if l == left { right } else { m[l] },
    )
}

/// No two left values are paired with the same right value
pub open spec fn pairs_injective(m: Map<usize, u64>) -> bool {
    forall|a: usize, b: usize| m.contains_key(a) && m.contains_key(b) && a != b ==> #[trigger] m[a] != #[trigger] m[b]
}

/// An empty bimap, through `BiHashMap::new` of the `bimap` crate
#[verifier::external_body]
fn bimap_new() -> (r: BiHashMap<usize, u64>)
    ensures
        bimap_pairs(r).dom().is_empty(),
{
    BiHashMap::new()
}

/// The right value paired with a left value, through `BiHashMap::get_by_left` of the
/// `bimap` crate, which looks the value up in its left-to-right map
#[verifier::external_body]
fn bimap_get_by_left(m: &BiHashMap<usize, u64>, left: usize) -> (r: Option<u64>)
    ensures
        r == (if bimap_pairs(*m).contains_key(left) { Some(bimap_pairs(*m)[left]) } else { None }),
{
    m.get_by_left(&left).copied()
}

/// The left value paired with a right value, through `BiHashMap::get_by_right` of the
/// `bimap` crate, which looks the value up in its right-to-left map; the crate keeps the two
/// maps mirroring each other
#[verifier::external_body]
fn bimap_get_by_right(m: &BiHashMap<usize, u64>, right: u64) -> (r: Option<usize>)
    ensures
        r matches Some(l) ==> bimap_pairs(*m).contains_key(l) && bimap_pairs(*m)[l] == right,
        r is None ==> forall|l: usize| #[trigger] bimap_pairs(*m).contains_key(l) ==> bimap_pairs(*m)[l] != right,
{
    m.get_by_right(&right).copied()
}

/// Pairs the two values, through `BiHashMap::insert` of the `bimap` crate, which first
/// removes the pair holding the left value and the pair holding the right value
#[verifier::external_body]
fn bimap_insert(m: &mut BiHashMap<usize, u64>, left: usize, right: u64)
    ensures
        bimap_pairs(*final(m)) == pairs_after_insert(bimap_pairs(*old(m)), left, right),
{
    m.insert(left, right);
}

/// Removes the pair holding the left value, through `BiHashMap::remove_by_left` of the
/// `bimap` crate; the removed pair comes back
#[verifier::external_body]
fn bimap_remove_by_left(m: &mut BiHashMap<usize, u64>, left: usize) -> (r: Option<(usize, u64)>)
    ensures
        bimap_pairs(*final(m)) == bimap_pairs(*old(m)).remove(left),
        r == (if bimap_pairs(*old(m)).contains_key(left) { Some((left, bimap_pairs(*old(m))[left])) } else { None }),
{
    m.remove_by_left(&left)
}

/// Inserting a pair keeps the pairs one to one
pub proof fn lemma_insert_keeps_injective(m: Map<usize, u64>, left: usize, right: u64)
    requires
        pairs_injective(m),
    ensures
        pairs_injective(pairs_after_insert(m, left, right)),
{
}

/// After a pair is inserted, the left value is found paired with the right one, and every
/// other left value keeps its right value unless that was the inserted right value
pub proof fn lemma_inserted_pair_found(m: Map<usize, u64>, left: usize, right: u64)
    ensures
        pairs_after_insert(m, left, right).contains_key(left),
        pairs_after_insert(m, left, right)[left] == right,
        forall|l: usize| #[trigger] m.contains_key(l) && l != left && m[l] != right
            ==> pairs_after_insert(m, left, right).contains_key(l) && pairs_after_insert(m, left, right)[l] == m[l],
{
}

/// Removing a pair keeps the pairs one to one
pub proof fn lemma_remove_keeps_injective(m: Map<usize, u64>, left: usize)
    requires
        pairs_injective(m),
    ensures
        pairs_injective(m.remove(left)),
{
}

/// The render data of the nodes a view holds on the GPU, node by node
pub struct BoxTreeRenderData {
    /// True if the MIP maps are enabled in the tree
    pub mips_enabled: bool,
    /// Node property descriptors: bit `i % 8` of word `i / 8` is set if node `i` is a leaf,
    /// bit `8 + i % 8` if it is a uniform leaf
    pub node_metadata: Vec<u32>,
    /// 64 entries for each node: the index of a child node, the index of a brick (top bit
    /// clear), a solid voxel (top bit set), or the empty marker
    pub node_children: Vec<u32>,
    /// The MIP of each node: a brick index, a solid voxel (top bit set) or the empty marker
    pub node_mips: Vec<u32>,
    /// The occupancy bitmap of each node in two words, lower half first
    pub node_ocbits: Vec<u32>,
}

/// What occupies a brick slot of the cache
#[derive(Debug, Clone, Copy, PartialEq, Eq)]
pub enum BrickOwnedBy {
    /// The slot is free
    Unowned,
    /// The brick of a leaf node at a sectant
    NodeAsChild(u32, u8),
    /// The MIP of a node
    NodeAsMIP(u32),
}

/// The number a brick owner is found by in the cache: a tag in the top bits, the node key
/// and the sectant below it
pub open spec fn owner_code(o: BrickOwnedBy) -> u64 {
    match o {
        BrickOwnedBy::Unowned => 0u64,
        BrickOwnedBy::NodeAsChild(k, s) => (0x1_0000_0000_00u64 + k * 256 + s) as u64,
        BrickOwnedBy::NodeAsMIP(k) => (0x2_0000_0000_00u64 + k * 256) as u64,
    }
}

/// The number a brick owner is found by in the cache
pub fn brick_owner_code(o: BrickOwnedBy) -> (r: u64)
    ensures
        r == owner_code(o),
{
    match o {
        BrickOwnedBy::Unowned => 0,
        BrickOwnedBy::NodeAsChild(k, s) => 0x1_0000_0000_00u64 + (k as u64) * 256 + s as u64,
        BrickOwnedBy::NodeAsMIP(k) => 0x2_0000_0000_00u64 + (k as u64) * 256,
    }
}

/// A node of the tree to be written into the cache, below its parent at a sectant
#[derive(Debug, Clone, Copy)]
pub struct NodeUploadRequest {
    pub node_key: usize,
    pub parent_key: usize,
    pub sectant: u8,
}

/// A brick of the tree to be written into the cache, with its owner
#[derive(Debug, Clone, Copy)]
pub struct BrickUploadRequest {
    pub ownership: BrickOwnedBy,
}

/// The words of a brick written into a brick slot of the cache
pub struct BrickUpdate<'a> {
    pub brick_index: usize,
    pub data: &'a [u32],
}

/// What one request changed in the cache
pub struct CacheUpdatePackage<'a> {
    /// True if no room could be found in the cache
    pub allocation_failed: bool,
    /// The brick written, if any
    pub brick_update: Option<BrickUpdate<'a>>,
    /// The node indices whose render data changed
    pub modified_nodes: Vec<usize>,
}

/// Which part of the tree sits where in the cache
pub struct UploadQueueTargets {
    /// Brick slots and the codes of their owners
    pub(crate) brick_ownership: BiHashMap<usize, u64>,
    /// Node keys of the tree and the indices the nodes sit at in the cache
    pub(crate) node_key_vs_meta_index: BiHashMap<usize, u64>,
    /// For each node index of the cache, the index of its parent and its sectant there
    pub(crate) node_index_vs_parent: HashMap<usize, (usize, u8)>,
    /// The keys of the nodes that should be in the cache
    pub(crate) nodes_to_see: HashSet<usize>,
}

/// Where the uploads stand
pub struct UploadQueueStatus {
    /// The number of nodes already uploaded from the node upload queue
    pub(crate) node_upload_progress: usize,
    /// The number of bricks already uploaded from the brick upload queue
    pub(crate) brick_upload_progress: usize,
    /// The brick slot the search for a brick to overwrite starts at
    pub(crate) victim_brick: usize,
    /// The node index the search for a node to overwrite starts after
    pub(crate) victim_node: usize,
    /// The number of colors uploaded to the GPU
    pub(crate) uploaded_color_palette_size: usize,
}

/// The cache of nodes and bricks of a view
pub struct BoxTreeGPUDataHandler {
    /// How many nodes to upload in one frame
    pub node_uploads_per_frame: usize,
    /// How many bricks to upload in one frame
    pub brick_uploads_per_frame: usize,
    /// How far to look for a brick to unload
    pub brick_unload_search_perimeter: usize,
    /// The number of nodes the cache holds
    pub(crate) nodes_in_view: usize,
    /// The number of bricks the cache holds
    pub(crate) bricks_in_view: usize,
    /// The data the GPU displays
    pub render_data: BoxTreeRenderData,
    /// Which part of the tree sits where
    pub(crate) upload_targets: UploadQueueTargets,
    /// Where the uploads stand
    pub(crate) upload_state: UploadQueueStatus,
}

/// The number of steps from the index after `v` to `j`, going round the `n` indices
pub open spec fn cyclic_steps(v: int, j: int, n: int) -> int {
    if j > v { j - v - 1 } else { j + n - v - 1 }
}


impl BoxTreeGPUDataHandler {
    /// Node keys and the indices the nodes sit at
    pub closed spec fn node_slots(&self) -> Map<usize, u64> {
        bimap_pairs(self.upload_targets.node_key_vs_meta_index)
    }

    /// Brick slots and the codes of their owners
    pub closed spec fn brick_slots(&self) -> Map<usize, u64> {
        bimap_pairs(self.upload_targets.brick_ownership)
    }

    /// For each node index, its parent index and sectant
    pub closed spec fn parents(&self) -> Map<usize, (usize, u8)> {
        self.upload_targets.node_index_vs_parent@
    }

    /// The keys of the nodes that should be in the cache
    pub closed spec fn wanted(&self) -> Set<usize> {
        self.upload_targets.nodes_to_see@
    }

    /// The index the search for a node to overwrite starts after
    pub closed spec fn victim_node(&self) -> usize {
        self.upload_state.victim_node
    }

    /// The number of nodes the cache holds
    pub closed spec fn node_capacity(&self) -> usize {
        self.nodes_in_view
    }

    /// The number of bricks the cache holds
    pub closed spec fn brick_capacity(&self) -> usize {
        self.bricks_in_view
    }

    /// The 64 child entries of each node index, one after the other
    pub closed spec fn children_words(&self) -> Seq<u32> {
        self.render_data.node_children@
    }

    /// The MIP entry of each node index
    pub closed spec fn mip_words(&self) -> Seq<u32> {
        self.render_data.node_mips@
    }

    /// The occupancy bitmap of each node index, in two words, the lower half first
    pub closed spec fn ocbits_words(&self) -> Seq<u32> {
        self.render_data.node_ocbits@
    }

    /// The type bits of the nodes, 8 nodes to a word
    pub closed spec fn metadata_words(&self) -> Seq<u32> {
        self.render_data.node_metadata@
    }

    /// The node index may be overwritten: no node sits there, or one the view does not need
    pub open spec fn slot_free(&self, i: usize) -> bool {
        forall|k: usize| #[trigger] self.node_slots().contains_key(k) && self.node_slots()[k] == i as u64
            ==> !self.wanted().contains(k)
    }

    /// The invariant of the cache: buffers sized for its capacity, node indices inside it, and
    /// each pairing one to one
    pub closed spec fn wf(&self) -> bool {
        let n = self.nodes_in_view as int;
        &&& 0 < n
        &&& 64 * n <= usize::MAX
        &&& self.render_data.node_children@.len() == 64 * n
        &&& self.render_data.node_mips@.len() == n
        &&& self.render_data.node_ocbits@.len() == 2 * n
        &&& self.render_data.node_metadata@.len() * 8 >= n
        &&& self.upload_state.victim_node < n
        &&& pairs_injective(self.node_slots())
        &&& pairs_injective(self.brick_slots())
        &&& forall|k: usize| #[trigger] self.node_slots().contains_key(k) ==> self.node_slots()[k] < n
        &&& forall|i: usize| #[trigger] self.parents().contains_key(i)
            ==> self.parents()[i].0 < n && self.parents()[i].1 < 64
    }

    /// Everything but the node victim is as in the other cache
    pub closed spec fn same_but_victim(&self, other: &Self) -> bool {
        &&& self.node_uploads_per_frame == other.node_uploads_per_frame
        &&& self.brick_uploads_per_frame == other.brick_uploads_per_frame
        &&& self.brick_unload_search_perimeter == other.brick_unload_search_perimeter
        &&& self.nodes_in_view == other.nodes_in_view
        &&& self.bricks_in_view == other.bricks_in_view
        &&& self.render_data == other.render_data
        &&& self.upload_targets == other.upload_targets
        &&& self.upload_state.node_upload_progress == other.upload_state.node_upload_progress
        &&& self.upload_state.brick_upload_progress == other.upload_state.brick_upload_progress
        &&& self.upload_state.victim_brick == other.upload_state.victim_brick
        &&& self.upload_state.uploaded_color_palette_size == other.upload_state.uploaded_color_palette_size
    }

    /// An empty cache for `nodes_in_view` nodes and `bricks_in_view` bricks: no node, no
    /// brick, every child and MIP entry empty
    pub fn new(nodes_in_view: usize, bricks_in_view: usize, mips_enabled: bool) -> (r: Self)
        requires
            0 < nodes_in_view,
            64 * nodes_in_view <= usize::MAX,
        ensures
            r.wf(),
            r.node_capacity() == nodes_in_view,
            r.brick_capacity() == bricks_in_view,
            r.node_slots().dom().is_empty(),
            r.brick_slots().dom().is_empty(),
            r.parents().dom().is_empty(),
            r.wanted().is_empty(),
            r.children_words() == Seq::new((64 * nodes_in_view) as nat, |i: int| EMPTY_MARKER),
            r.mip_words() == Seq::new(nodes_in_view as nat, |i: int| EMPTY_MARKER),
            r.ocbits_words() == Seq::new((2 * nodes_in_view) as nat, |i: int| 0u32),
    {
        let meta_len = (nodes_in_view + 7) / 8;
        let render_data = BoxTreeRenderData {
            mips_enabled,
            node_metadata: filled_words(0, meta_len),
            node_children: filled_words(EMPTY_MARKER, nodes_in_view * 64),
            node_mips: filled_words(EMPTY_MARKER, nodes_in_view),
            node_ocbits: filled_words(0, nodes_in_view * 2),
        };
        let r = BoxTreeGPUDataHandler {
            node_uploads_per_frame: 4,
            brick_uploads_per_frame: 4,
            brick_unload_search_perimeter: 8,
            nodes_in_view,
            bricks_in_view,
            render_data,
            upload_targets: UploadQueueTargets {
                brick_ownership: bimap_new(),
                node_key_vs_meta_index: bimap_new(),
                node_index_vs_parent: HashMap::new(),
                nodes_to_see: HashSet::new(),
            },
            upload_state: UploadQueueStatus {
                node_upload_progress: 0,
                brick_upload_progress: 0,
                victim_brick: 0,
                victim_node: 0,
                uploaded_color_palette_size: 0,
            },
        };
        proof {
            assert(r.children_words() =~= Seq::new((64 * nodes_in_view) as nat, |i: int| EMPTY_MARKER));
            assert(r.mip_words() =~= Seq::new(nodes_in_view as nat, |i: int| EMPTY_MARKER));
            assert(r.ocbits_words() =~= Seq::new((2 * nodes_in_view) as nat, |i: int| 0u32));
        }
        r
    }
}

/// A vector of `n` copies of a word
fn filled_words(v: u32, n: usize) -> (r: Vec<u32>)
    ensures
        r@.len() == n,
        forall|i: int| 0 <= i < n ==> #[trigger] r@[i] == v,
{
    let mut r: Vec<u32> = Vec::new();
    let mut i: usize = 0;
    while i < n
        invariant
            i <= n,
            r@.len() == i,
            forall|j: int| 0 <= j < i ==> #[trigger] r@[j] == v,
        decreases n - i,
    {
        r.push(v);
        i += 1;
    }
    r
}

impl BoxTreeGPUDataHandler {
    /// The first index in the cache, going round from the one after the last victim, that may
    /// be overwritten; nothing where every other index holds a node the view needs
    fn peek_free_node(&self) -> (r: Option<usize>)
        requires
            self.wf(),
        ensures
            match r {
                Some(i) => self.first_free(i),
                None => self.cache_full(),
            },
    {
        let n = self.nodes_in_view;
        let v = self.upload_state.victim_node;
        let mut idx = (v + 1) % n;
        let mut k: usize = 0;
        proof {
            if v + 1 < n {
                vstd::arithmetic::div_mod::lemma_small_mod((v + 1) as nat, n as nat);
            } else {
                vstd::arithmetic::div_mod::lemma_mod_self_0(n as int);
            }
        }
        while idx != v
            invariant
                n == self.nodes_in_view,
                v == self.upload_state.victim_node,
                n > 0,
                v < n,
                k < n,
                idx < n,
                idx == (if v + 1 + k < n { v + 1 + k } else { v + 1 + k - n }),
                self.wf(),
                forall|j: usize| j < n && j != v && cyclic_steps(v as int, j as int, n as int) < k ==> !self.slot_free(j),
            decreases n - k,
        {
            let key = bimap_get_by_right(&self.upload_targets.node_key_vs_meta_index, idx as u64);
            let free = match key {
                None => true,
                Some(kk) => !self.upload_targets.nodes_to_see.contains(&kk),
            };
            proof {
                assert(cyclic_steps(v as int, idx as int, n as int) == k);
                if let Some(k0) = key {
                    assert(free == !self.upload_targets.nodes_to_see@.contains(k0));
                    assert(self.node_slots().contains_key(k0) && self.node_slots()[k0] == idx as u64);
                }
                if free {
                    assert forall|kk: usize| #[trigger] self.node_slots().contains_key(kk) && self.node_slots()[kk] == idx as u64
                        implies !self.wanted().contains(kk) by {
                        match key {
                            Some(k0) => {
                                if kk != k0 {
                                    assert(pairs_injective(self.node_slots()));
                                    assert(self.node_slots()[k0] == idx as u64);
                                    assert(false);
                                } else {
                                    assert(!self.upload_targets.nodes_to_see@.contains(k0));
                                }
                            },
                            None => {
                                assert(bimap_pairs(self.upload_targets.node_key_vs_meta_index).contains_key(kk));
                                assert(false);
                            },
                        }
                    }
                } else {
                    assert(!self.slot_free(idx));
                    assert forall|j: usize| j < n && j != v && cyclic_steps(v as int, j as int, n as int) < k + 1
                        implies !self.slot_free(j) by {
                        if cyclic_steps(v as int, j as int, n as int) == k {
                            assert(j == idx);
                        }
                    }
                }
            }
            if free {
                return Some(idx);
            }
            proof {
                if idx + 1 < n {
                    vstd::arithmetic::div_mod::lemma_small_mod((idx + 1) as nat, n as nat);
                } else {
                    vstd::arithmetic::div_mod::lemma_mod_self_0(n as int);
                }
            }
            idx = (idx + 1) % n;
            k = k + 1;
        }
        proof {
            assert forall|j: usize| j < n && j != v implies !self.slot_free(j) by {
                assert(cyclic_steps(v as int, j as int, n as int) < k);
            }
        }
        None
    }

    /// At most one index comes first among the free ones
    proof fn lemma_first_free_unique(&self, i: usize, j: usize)
        requires
            self.first_free(i),
            self.first_free(j),
        ensures
            i == j,
    {
        let v = self.victim_node() as int;
        let n = self.node_capacity() as int;
        if i != j {
            assert(cyclic_steps(v, i as int, n) != cyclic_steps(v, j as int, n));
        }
    }

    /// Takes the first index in the cache, going round from the one after the last victim,
    /// that may be overwritten, as the new victim, with the parent and sectant of the node
    /// there if it has one. Nothing where every other index holds a node the view needs.
    fn first_available_node(&mut self) -> (r: Option<(usize, Option<(usize, u8)>)>)
        requires
            old(self).wf(),
        ensures
            final(self).wf(),
            final(self).same_but_victim(old(self)),
            match r {
                Some((i, p)) => {
                    &&& old(self).first_free(i)
                    &&& final(self).victim_node() == i
                    &&& p == (if old(self).parents().contains_key(i) { Some(old(self).parents()[i]) } else { None })
                },
                None => {
                    &&& old(self).cache_full()
                    &&& final(self).victim_node() == old(self).victim_node()
                },
            },
    {
        match self.peek_free_node() {
            None => None,
            Some(idx) => {
                self.upload_state.victim_node = idx;
                proof {
                    assert(self.node_slots() == old(self).node_slots());
                    assert(self.brick_slots() == old(self).brick_slots());
                    assert(self.parents() == old(self).parents());
                }
                let parent = match self.upload_targets.node_index_vs_parent.get(&idx) {
                    Some(p) => Some(*p),
                    None => None,
                };
                Some((idx, parent))
            },
        }
    }
}


/// The key paired with a node index
pub open spec fn key_in(slots: Map<usize, u64>, i: int) -> usize {
    choose|k: usize| slots.contains_key(k) && slots[k] == i as u64
}

/// Some key is paired with the node index
pub open spec fn index_in(slots: Map<usize, u64>, i: int) -> bool {
    exists|k: usize| slots.contains_key(k) && slots[k] == i as u64
}

/// With the nodes paired with indices by `slots` and the child entries `children`, the child
/// entry at `sectant` of the node at `meta` can be erased: a node of the tree that holds
/// something sits at `meta` and, where that node is internal, a node of the tree sits at the
/// index the entry points to
pub open spec fn erasable_in<T>(slots: Map<usize, u64>, children: Seq<u32>, n: usize, tree: &BoxTree<T>, meta: usize, sectant: usize) -> bool {
    let c = children[meta * 64 + sectant];
    &&& meta < n
    &&& sectant < 64
    &&& index_in(slots, meta as int)
    &&& key_in(slots, meta as int) < tree.node_count()
    &&& !tree.node_is_nothing(key_in(slots, meta as int) as int)
    &&& tree.node_is_internal(key_in(slots, meta as int) as int) ==> index_in(slots, c as int)
        && key_in(slots, c as int) < tree.node_count()
}

/// The brick slot paired with an owner code, if any
pub open spec fn slot_of(slots: Map<usize, u64>, code: u64) -> Option<usize> {
    if exists|b: usize| slots.contains_key(b) && slots[b] == code {
        Some(choose|b: usize| slots.contains_key(b) && slots[b] == code)
    } else {
        None
    }
}

/// The entry pointing to a brick slot: its index with the top bit clear
pub open spec fn brick_word(slot: Option<usize>) -> u32 {
    match slot {
        Some(b) => (b as u32) & 0x7FFF_FFFFu32,
        None => EMPTY_MARKER,
    }
}

/// The links of the cache: the child entries and MIP entries of the render data, the parent
/// of each node index and the owner code of each brick slot
pub struct CacheLinks {
    pub children: Seq<u32>,
    pub mips: Seq<u32>,
    pub parents: Map<usize, (usize, u8)>,
    pub bricks: Map<usize, u64>,
}

/// The links once the child entry at `sectant` of the node at `meta` is erased, the nodes
/// being paired with indices by `slots`: the entry becomes empty and the index it held loses
/// its parent. Below an internal node the child node's MIP entry becomes empty, and the brick
/// slot of that MIP is freed where the child's MIP is parted; below a leaf the brick slot the
/// entry held is freed.
pub open spec fn erased_links<T>(l: CacheLinks, slots: Map<usize, u64>, tree: &BoxTree<T>, meta: usize, sectant: usize) -> CacheLinks {
    let off = meta * 64 + sectant;
    let c = l.children[off];
    let internal = tree.node_is_internal(key_in(slots, meta as int) as int);
    let child_mip = l.mips[c as int];
    CacheLinks {
        children: l.children.update(off, EMPTY_MARKER),
        mips: if internal && child_mip != EMPTY_MARKER { l.mips.update(c as int, EMPTY_MARKER) } else { l.mips },
        parents: l.parents.remove(c as usize),
        bricks: if internal {
            if child_mip != EMPTY_MARKER && tree.mip_is_parted(key_in(slots, c as int) as int) {
                l.bricks.remove(child_mip as usize)
            } else {
                l.bricks
            }
        } else if c != EMPTY_MARKER {
            l.bricks.remove((c & 0x7FFF_FFFFu32) as usize)
        } else {
            l.bricks
        },
    }
}

/// The node indices whose render data the erasure of `erased_links` changes: the node's, and
/// below an internal node the child's
pub open spec fn erased_nodes<T>(l: CacheLinks, slots: Map<usize, u64>, tree: &BoxTree<T>, meta: usize, sectant: usize) -> Seq<usize> {
    let c = l.children[meta * 64 + sectant];
    if tree.node_is_internal(key_in(slots, meta as int) as int) {
        seq![meta, c as usize]
    } else {
        seq![meta]
    }
}

/// The owner of a brick slot by the owner codes `bricks`
pub open spec fn slot_owner(bricks: Map<usize, u64>, slot: usize) -> BrickOwnedBy {
    if bricks.contains_key(slot) { owner_of_code(bricks[slot]) } else { BrickOwnedBy::Unowned }
}

/// The links once the owner of brick slot `slot` is cut from its node, where that node sits in
/// the cache: the child entry of a leaf brick is erased as `erased_links` says, the MIP entry
/// of a MIP becomes empty
pub open spec fn slot_cut_links<T>(l: CacheLinks, slots: Map<usize, u64>, tree: &BoxTree<T>, slot: usize) -> CacheLinks {
    match slot_owner(l.bricks, slot) {
        BrickOwnedBy::NodeAsChild(vk, vs) => if slots.contains_key(vk as usize) {
            erased_links(l, slots, tree, slots[vk as usize] as usize, vs as usize)
        } else {
            l
        },
        BrickOwnedBy::NodeAsMIP(vk) => if slots.contains_key(vk as usize) {
            CacheLinks {
                children: l.children,
                mips: l.mips.update(slots[vk as usize] as int, EMPTY_MARKER),
                parents: l.parents,
                bricks: l.bricks,
            }
        } else {
            l
        },
        BrickOwnedBy::Unowned => l,
    }
}

/// The node indices whose render data cutting the owner of brick slot `slot` changes
pub open spec fn slot_cut_nodes<T>(l: CacheLinks, slots: Map<usize, u64>, tree: &BoxTree<T>, slot: usize) -> Seq<usize> {
    match slot_owner(l.bricks, slot) {
        BrickOwnedBy::NodeAsChild(vk, vs) => if slots.contains_key(vk as usize) {
            erased_nodes(l, slots, tree, slots[vk as usize] as usize, vs as usize)
        } else {
            Seq::empty()
        },
        BrickOwnedBy::NodeAsMIP(vk) => if slots.contains_key(vk as usize) {
            seq![slots[vk as usize] as usize]
        } else {
            Seq::empty()
        },
        BrickOwnedBy::Unowned => Seq::empty(),
    }
}

impl BoxTreeGPUDataHandler {
    /// The links of the cache
    pub open spec fn links(&self) -> CacheLinks {
        CacheLinks {
            children: self.children_words(),
            mips: self.mip_words(),
            parents: self.parents(),
            bricks: self.brick_slots(),
        }
    }

    /// The key of the node sitting at a node index
    pub closed spec fn key_at(&self, i: int) -> usize {
        key_in(self.node_slots(), i)
    }

    /// The child entry at `sectant` of the node at `meta` can be erased
    pub open spec fn child_erasable<T>(&self, tree: &BoxTree<T>, meta: usize, sectant: usize) -> bool {
        erasable_in(self.node_slots(), self.children_words(), self.node_capacity(), tree, meta, sectant)
    }

    /// Everything but the render data's children and MIP entries, the node parents and the brick
    /// owners is as in the other cache
    pub closed spec fn same_but_links(&self, other: &Self) -> bool {
        &&& self.node_uploads_per_frame == other.node_uploads_per_frame
        &&& self.brick_uploads_per_frame == other.brick_uploads_per_frame
        &&& self.brick_unload_search_perimeter == other.brick_unload_search_perimeter
        &&& self.nodes_in_view == other.nodes_in_view
        &&& self.bricks_in_view == other.bricks_in_view
        &&& self.render_data.mips_enabled == other.render_data.mips_enabled
        &&& self.render_data.node_metadata@ == other.render_data.node_metadata@
        &&& self.render_data.node_ocbits@ == other.render_data.node_ocbits@
        &&& self.node_slots() == other.node_slots()
        &&& self.wanted() == other.wanted()
        &&& self.upload_state.node_upload_progress == other.upload_state.node_upload_progress
        &&& self.upload_state.brick_upload_progress == other.upload_state.brick_upload_progress
        &&& self.upload_state.victim_brick == other.upload_state.victim_brick
        &&& self.upload_state.victim_node == other.upload_state.victim_node
        &&& self.upload_state.uploaded_color_palette_size == other.upload_state.uploaded_color_palette_size
    }

    /// Erases the child entry at `child_sectant` of the node at `meta_index`: the entry becomes
    /// empty and the index it pointed to loses its parent. Below an internal node the child
    /// node also loses its MIP entry, and the brick slot of that MIP is freed where the child's
    /// MIP is parted; below a leaf the brick slot the entry pointed to is freed. Gives the node
    /// indices modified: the node's, and the child's below an internal node.
    fn erase_node_child<T>(&mut self, meta_index: usize, child_sectant: usize, tree: &BoxTree<T>) -> (r: Vec<usize>)
        requires
            old(self).wf(),
            tree.wf(),
            old(self).child_erasable(tree, meta_index, child_sectant),
        ensures
            final(self).wf(),
            final(self).same_but_links(old(self)),
            final(self).links() == erased_links(old(self).links(), old(self).node_slots(), tree, meta_index, child_sectant),
            r@ == erased_nodes(old(self).links(), old(self).node_slots(), tree, meta_index, child_sectant),
    {
        let ghost pk = self.key_at(meta_index as int);
        proof {
            tree.lemma_wf_lens();
            tree.lemma_kinds_read_fields(pk as int);
        }
        let mut modified: Vec<usize> = Vec::new();
        modified.push(meta_index);
        let parent_key = match bimap_get_by_right(&self.upload_targets.node_key_vs_meta_index, meta_index as u64) {
            Some(k) => k,
            None => {
                proof {
                    assert(self.node_slots().contains_key(pk));
                }
                return modified;
            },
        };
        proof {
            assert(self.node_slots().contains_key(pk) && self.node_slots()[pk] == meta_index as u64);
            if parent_key != pk {
                assert(pairs_injective(self.node_slots()));
            }
            assert(parent_key == pk);
        }
        let off = meta_index * 64 + child_sectant;
        let child = self.render_data.node_children[off];
        let child_index = child as usize;
        self.upload_targets.node_index_vs_parent.remove(&child_index);
        proof {
            assert forall|i: usize| #[trigger] self.parents().contains_key(i)
                implies self.parents()[i].0 < self.nodes_in_view && self.parents()[i].1 < 64 by {
                assert(old(self).parents().contains_key(i));
            }
        }
        self.render_data.node_children.set(off, EMPTY_MARKER);
        match &tree.nodes[parent_key] {
            NodeContent::Internal(_) => {
                let ghost ck = old(self).key_at(child as int);
                let child_key = match bimap_get_by_right(&self.upload_targets.node_key_vs_meta_index, child as u64) {
                    Some(k) => k,
                    None => {
                        proof {
                            assert(old(self).node_slots().contains_key(ck));
                        }
                        return modified;
                    },
                };
                proof {
                    assert(self.node_slots().contains_key(ck) && self.node_slots()[ck] == child as u64);
                    if child_key != ck {
                        assert(pairs_injective(self.node_slots()));
                    }
                    assert(child_key == ck);
                    tree.lemma_kinds_read_fields(ck as int);
                }
                let child_mip = self.render_data.node_mips[child_index];
                if child_mip != EMPTY_MARKER {
                    self.render_data.node_mips.set(child_index, EMPTY_MARKER);
                    let parted = match &tree.node_mips[child_key] {
                        BrickData::Parted(_) => true,
                        _ => false,
                    };
                    if parted {
                        proof {
                            lemma_remove_keeps_injective(self.brick_slots(), child_mip as usize);
                        }
                        bimap_remove_by_left(&mut self.upload_targets.brick_ownership, child_mip as usize);
                    }
                }
                modified.push(child_index);
                proof {
                    assert(modified@ == seq![meta_index, child as usize]);
                }
            },
            NodeContent::Nothing => {
                return modified;
            },
            _ => {
                if child != EMPTY_MARKER {
                    proof {
                        lemma_remove_keeps_injective(self.brick_slots(), (child & 0x7FFF_FFFFu32) as usize);
                    }
                    bimap_remove_by_left(&mut self.upload_targets.brick_ownership, (child & 0x7FFF_FFFFu32) as usize);
                }
            },
        }
        proof {
            assert forall|i: usize| #[trigger] self.parents().contains_key(i)
                implies self.parents()[i].0 < self.nodes_in_view && self.parents()[i].1 < 64 by {
                assert(old(self).parents().contains_key(i));
            }
            let e = erased_links(old(self).links(), old(self).node_slots(), tree, meta_index, child_sectant);
            assert(self.children_words() =~= e.children);
            assert(self.mip_words() =~= e.mips);
            assert(self.parents() =~= e.parents);
            assert(self.brick_slots() =~= e.bricks);
        }
        modified
    }
}


impl BoxTreeGPUDataHandler {
    /// The child entry the render data holds for sectant `s` of the tree node `key`: the node
    /// index of the child node of an internal node; for a leaf, the solid voxel with the top bit
    /// set, or the brick slot the brick sits in; empty elsewhere
    pub closed spec fn child_word<T>(&self, tree: &BoxTree<T>, key: int, s: int) -> u32 {
        match tree.nodes@[key] {
            NodeContent::Internal(_) => {
                let ck = tree.child_key(key, s);
                if ck != EMPTY_MARKER as int && self.node_slots().contains_key(ck as usize) {
                    self.node_slots()[ck as usize] as u32
                } else {
                    EMPTY_MARKER
                }
            },
            NodeContent::UniformLeaf(b) => match b {
                BrickData::Solid(v) => if s == 0 { 0x8000_0000u32 | v } else { EMPTY_MARKER },
                _ => EMPTY_MARKER,
            },
            NodeContent::Leaf(bricks) => match bricks@[s] {
                BrickData::Solid(v) => 0x8000_0000u32 | v,
                _ => brick_word(slot_of(self.brick_slots(), owner_code(BrickOwnedBy::NodeAsChild(key as u32, s as u8)))),
            },
            NodeContent::Nothing => EMPTY_MARKER,
        }
    }

    /// The MIP entry the render data holds for the tree node `key`: the solid voxel with the top
    /// bit set, the brick slot a parted MIP sits in, or empty
    pub closed spec fn mip_word<T>(&self, tree: &BoxTree<T>, key: int) -> u32 {
        match tree.node_mips@[key] {
            BrickData::Empty => EMPTY_MARKER,
            BrickData::Solid(v) => 0x8000_0000u32 | v,
            BrickData::Parted(_) => brick_word(slot_of(self.brick_slots(), owner_code(BrickOwnedBy::NodeAsMIP(key as u32)))),
        }
    }

    /// The child entry of a leaf for a sectant holding a solid brick has bit 31 set and the
    /// voxel's palette index in its low 31 bits (as has entry 0 of a uniform leaf holding a
    /// solid brick); an entry of a leaf with bit 31 clear is the brick slot paired with that
    /// sectant's brick
    pub proof fn lemma_leaf_child_entry<T>(&self, tree: &BoxTree<T>, key: int, s: int)
        requires
            tree.wf(),
            0 <= key < tree.node_count(),
            0 <= s < 64,
        ensures
            (tree.node_is_leaf(key) || (tree.node_is_uniform_leaf(key) && s == 0))
                ==> (requested_brick(tree, BrickOwnedBy::NodeAsChild(key as u32, s as u8)) matches BrickData::Solid(v)
                    ==> self.child_word(tree, key, s) & 0x8000_0000u32 == 0x8000_0000u32
                        && self.child_word(tree, key, s) & 0x7FFF_FFFFu32 == v & 0x7FFF_FFFFu32),
            tree.node_is_leaf(key) && self.child_word(tree, key, s) & 0x8000_0000u32 == 0
                ==> (slot_of(self.brick_slots(), owner_code(BrickOwnedBy::NodeAsChild(key as u32, s as u8))) matches Some(b)
                    && self.child_word(tree, key, s) == (b as u32) & 0x7FFF_FFFFu32),
    {
        tree.lemma_kinds_read_fields(key);
        tree.lemma_wf_bounds();
        assert((key as u32) as int == key);
        assert(((s as u8) as int) == s);
        let w = self.child_word(tree, key, s);
        let e = EMPTY_MARKER;
        assert(e & 0x8000_0000u32 == 0x8000_0000u32) by (bit_vector)
            requires e == 0xFFFF_FFFFu32;
        match tree.nodes@[key] {
            NodeContent::Leaf(bricks) => {
                match bricks@[s] {
                    BrickData::Solid(v) => {
                        assert(w == 0x8000_0000u32 | v);
                        assert((0x8000_0000u32 | v) & 0x8000_0000u32 == 0x8000_0000u32
                            && (0x8000_0000u32 | v) & 0x7FFF_FFFFu32 == v & 0x7FFF_FFFFu32) by (bit_vector);
                    },
                    _ => {
                        let sl = slot_of(self.brick_slots(), owner_code(BrickOwnedBy::NodeAsChild(key as u32, s as u8)));
                        assert(w == brick_word(sl));
                        if let Some(b) = sl {
                            let bw = b as u32;
                            assert((bw & 0x7FFF_FFFFu32) & 0x8000_0000u32 == 0) by (bit_vector);
                        }
                    },
                }
            },
            NodeContent::UniformLeaf(b) => {
                if let BrickData::Solid(v) = b {
                    if s == 0 {
                        assert(w == 0x8000_0000u32 | v);
                        assert((0x8000_0000u32 | v) & 0x8000_0000u32 == 0x8000_0000u32
                            && (0x8000_0000u32 | v) & 0x7FFF_FFFFu32 == v & 0x7FFF_FFFFu32) by (bit_vector);
                    }
                }
            },
            _ => {},
        }
    }

    /// The MIP entry of a node: a solid MIP gives its voxel with bit 31 set and the voxel's
    /// palette index in the low 31 bits, an empty MIP gives the empty marker, and an entry with
    /// bit 31 clear is the brick slot paired with the node's parted MIP
    pub proof fn lemma_mip_entry<T>(&self, tree: &BoxTree<T>, key: int)
        requires
            tree.wf(),
            0 <= key < tree.node_count(),
        ensures
            requested_brick(tree, BrickOwnedBy::NodeAsMIP(key as u32)) matches BrickData::Solid(v)
                ==> self.mip_word(tree, key) & 0x8000_0000u32 == 0x8000_0000u32
                    && self.mip_word(tree, key) & 0x7FFF_FFFFu32 == v & 0x7FFF_FFFFu32,
            requested_brick(tree, BrickOwnedBy::NodeAsMIP(key as u32)) is Empty ==> self.mip_word(tree, key) == EMPTY_MARKER,
            self.mip_word(tree, key) & 0x8000_0000u32 == 0 ==> tree.mip_is_parted(key)
                && (slot_of(self.brick_slots(), owner_code(BrickOwnedBy::NodeAsMIP(key as u32))) matches Some(b)
                && self.mip_word(tree, key) == (b as u32) & 0x7FFF_FFFFu32),
    {
        tree.lemma_kinds_read_fields(key);
        tree.lemma_wf_bounds();
        assert((key as u32) as int == key);
        let w = self.mip_word(tree, key);
        let e = EMPTY_MARKER;
        assert(e & 0x8000_0000u32 == 0x8000_0000u32) by (bit_vector)
            requires e == 0xFFFF_FFFFu32;
        match tree.node_mips@[key] {
            BrickData::Solid(v) => {
                assert(w == 0x8000_0000u32 | v);
                assert((0x8000_0000u32 | v) & 0x8000_0000u32 == 0x8000_0000u32
                    && (0x8000_0000u32 | v) & 0x7FFF_FFFFu32 == v & 0x7FFF_FFFFu32) by (bit_vector);
            },
            BrickData::Parted(_) => {
                let sl = slot_of(self.brick_slots(), owner_code(BrickOwnedBy::NodeAsMIP(key as u32)));
                if let Some(b) = sl {
                    let bw = b as u32;
                    assert((bw & 0x7FFF_FFFFu32) & 0x8000_0000u32 == 0) by (bit_vector);
                }
            },
            BrickData::Empty => {},
        }
    }

    /// The child entry of an internal node for a sectant is the cache index of the child node
    /// there, or the empty marker where no child node is there or it is not in the cache
    pub proof fn lemma_internal_child_entry<T>(&self, tree: &BoxTree<T>, key: int, s: int)
        requires
            tree.wf(),
            0 <= key < tree.node_count(),
            0 <= s < 64,
        ensures
            tree.node_is_internal(key) ==> (self.child_word(tree, key, s) == EMPTY_MARKER
                || (tree.child_key(key, s) != EMPTY_MARKER as int
                    && self.node_slots().contains_key(tree.child_key(key, s) as usize)
                    && self.child_word(tree, key, s) == self.node_slots()[tree.child_key(key, s) as usize] as u32)),
            tree.node_is_internal(key) && tree.child_key(key, s) != EMPTY_MARKER as int
                && !self.node_slots().contains_key(tree.child_key(key, s) as usize)
                ==> self.child_word(tree, key, s) == EMPTY_MARKER,
    {
        tree.lemma_kinds_read_fields(key);
    }

    /// The brick slot paired with an owner
    fn slot_for(&self, code: u64) -> (r: Option<usize>)
        requires
            self.wf(),
        ensures
            r == slot_of(self.brick_slots(), code),
    {
        let r = bimap_get_by_right(&self.upload_targets.brick_ownership, code);
        proof {
            if let Some(b) = r {
                let c = choose|b: usize| self.brick_slots().contains_key(b) && self.brick_slots()[b] == code;
                if c != b {
                    assert(pairs_injective(self.brick_slots()));
                }
            }
        }
        r
    }

    /// The child entry the render data holds for sectant `s` of the tree node `key`
    fn child_word_exec<T>(&self, tree: &BoxTree<T>, key: usize, s: usize) -> (r: u32)
        requires
            self.wf(),
            tree.wf(),
            key < tree.node_count(),
            s < 64,
        ensures
            r == self.child_word(tree, key as int, s as int),
    {
        proof {
            tree.lemma_wf_lens();
            tree.lemma_leaf_len(key as int);
        }
        match &tree.nodes[key] {
            NodeContent::Internal(_) => {
                let ck = tree.child(key, s as u8);
                if ck != EMPTY_MARKER as usize {
                    match bimap_get_by_left(&self.upload_targets.node_key_vs_meta_index, ck) {
                        Some(m) => m as u32,
                        None => EMPTY_MARKER,
                    }
                } else {
                    EMPTY_MARKER
                }
            },
            NodeContent::UniformLeaf(b) => match b {
                BrickData::Solid(v) => if s == 0 { 0x8000_0000u32 | *v } else { EMPTY_MARKER },
                _ => EMPTY_MARKER,
            },
            NodeContent::Leaf(bricks) => match &bricks[s] {
                BrickData::Solid(v) => 0x8000_0000u32 | *v,
                _ => {
                    let code = brick_owner_code(BrickOwnedBy::NodeAsChild(key as u32, s as u8));
                    match self.slot_for(code) {
                        Some(b) => (b as u32) & 0x7FFF_FFFFu32,
                        None => EMPTY_MARKER,
                    }
                },
            },
            NodeContent::Nothing => EMPTY_MARKER,
        }
    }

    /// The MIP entry the render data holds for the tree node `key`
    fn mip_word_exec<T>(&self, tree: &BoxTree<T>, key: usize) -> (r: u32)
        requires
            self.wf(),
            tree.wf(),
            key < tree.node_count(),
        ensures
            r == self.mip_word(tree, key as int),
    {
        proof {
            tree.lemma_wf_lens();
        }
        match &tree.node_mips[key] {
            BrickData::Empty => EMPTY_MARKER,
            BrickData::Solid(v) => 0x8000_0000u32 | *v,
            BrickData::Parted(_) => {
                let code = brick_owner_code(BrickOwnedBy::NodeAsMIP(key as u32));
                match self.slot_for(code) {
                    Some(b) => (b as u32) & 0x7FFF_FFFFu32,
                    None => EMPTY_MARKER,
                }
            },
        }
    }
}


impl BoxTreeGPUDataHandler {
    /// The index a request for a node other than the root is written to is free, and comes
    /// first going round from the one after the last victim
    pub open spec fn first_free(&self, i: usize) -> bool {
        &&& i < self.node_capacity() && i != self.victim_node()
        &&& self.slot_free(i)
        &&& forall|j: usize| j < self.node_capacity() && j != self.victim_node()
            && cyclic_steps(self.victim_node() as int, j as int, self.node_capacity() as int)
                < cyclic_steps(self.victim_node() as int, i as int, self.node_capacity() as int)
            ==> !self.slot_free(j)
    }

    /// No index other than the last victim is free
    pub open spec fn cache_full(&self) -> bool {
        forall|j: usize| j < self.node_capacity() && j != self.victim_node() ==> !self.slot_free(j)
    }

    /// Writes a node of the tree into the cache: at index 0 for the root, else at the first
    /// free index going round from the one after the last victim, whose node is cut from its
    /// parent first. Writes the node's type bits, occupancy bitmap, child entries and MIP
    /// entry, and links it below its parent. Gives the node index and what changed; where no
    /// index is free, index 0 and a failed allocation, with the cache unchanged.
    pub fn add_node<'a, T>(&mut self, tree: &'a BoxTree<T>, node_upload_request: &NodeUploadRequest) -> (r: (usize, CacheUpdatePackage<'a>))
        requires
            old(self).wf(),
            tree.wf(),
            old(self).node_addable(tree, *node_upload_request),
        ensures
            final(self).wf(),
            final(self).node_capacity() == old(self).node_capacity(),
            final(self).wanted() == old(self).wanted(),
            r.1.brick_update is None,
            r.1.allocation_failed <==> node_upload_request.node_key != 0 && old(self).cache_full(),
            r.1.allocation_failed ==> {
                &&& r.0 == 0
                &&& r.1.modified_nodes@.len() == 0
                &&& final(self).node_slots() == old(self).node_slots()
                &&& final(self).brick_slots() == old(self).brick_slots()
                &&& final(self).parents() == old(self).parents()
                &&& final(self).children_words() == old(self).children_words()
                &&& final(self).mip_words() == old(self).mip_words()
                &&& final(self).ocbits_words() == old(self).ocbits_words()
                &&& final(self).metadata_words() == old(self).metadata_words()
            },
            !r.1.allocation_failed ==> {
                let i = r.0;
                let key = node_upload_request.node_key;
                let bits = tree.stored_bits(key as int);
                &&& key == 0 ==> i == 0
                &&& key != 0 ==> old(self).first_free(i) && final(self).victim_node() == i
                &&& final(self).node_slots() == pairs_after_insert(old(self).node_slots(), key, i as u64)
                &&& final(self).ocbits_words()[2 * i] == (bits & 0xFFFF_FFFFu64) as u32
                &&& final(self).ocbits_words()[2 * i + 1] == ((bits & 0xFFFF_FFFF_0000_0000u64) >> 32u64) as u32
                &&& final(self).metadata_words()[(i / 8) as int] == node_type_bits(
                    old(self).metadata_words()[(i / 8) as int],
                    (i % 8) as u32,
                    tree.node_is_leaf(key as int) || tree.node_is_uniform_leaf(key as int),
                    tree.node_is_uniform_leaf(key as int),
                )
                &&& forall|s: int| 0 <= s < 64 ==> #[trigger] final(self).children_words()[64 * i + s]
                    == final(self).child_word(tree, key as int, s)
                &&& final(self).mip_words()[i as int] == final(self).mip_word(tree, key as int)
                &&& key != 0 ==> {
                    let pm = final(self).node_slots()[node_upload_request.parent_key];
                    pm != i ==> final(self).children_words()[64 * pm + node_upload_request.sectant] == i as u32
                }
                &&& final(self).ocbits_words().len() == old(self).ocbits_words().len()
                &&& forall|j: int| 0 <= j < old(self).ocbits_words().len() && j != 2 * i && j != 2 * i + 1
                    ==> #[trigger] final(self).ocbits_words()[j] == old(self).ocbits_words()[j]
                &&& final(self).metadata_words().len() == old(self).metadata_words().len()
                &&& forall|j: int| 0 <= j < old(self).metadata_words().len() && j != i / 8
                    ==> #[trigger] final(self).metadata_words()[j] == old(self).metadata_words()[j]
            },
            !r.1.allocation_failed ==> {
                let i = r.0;
                let key = node_upload_request.node_key;
                let post = pairs_after_insert(old(self).node_slots(), key, i as u64);
                let robbed = key != 0 && old(self).parents().contains_key(i);
                let rp = old(self).parents()[i];
                let cut = if robbed { erased_links(old(self).links(), post, tree, rp.0, rp.1 as usize) } else { old(self).links() };
                let cut_nodes = if robbed { erased_nodes(old(self).links(), post, tree, rp.0, rp.1 as usize) } else { seq![i] };
                let pm = final(self).node_slots()[node_upload_request.parent_key] as usize;
                let link = 64 * pm + node_upload_request.sectant;
                &&& final(self).children_words().len() == old(self).children_words().len()
                &&& forall|j: int| 0 <= j < old(self).children_words().len() && !(64 * i <= j < 64 * i + 64)
                    && (key == 0 || j != link) ==> #[trigger] final(self).children_words()[j] == cut.children[j]
                &&& final(self).mip_words().len() == old(self).mip_words().len()
                &&& forall|j: int| 0 <= j < old(self).mip_words().len() && j != i
                    ==> #[trigger] final(self).mip_words()[j] == cut.mips[j]
                &&& final(self).parents() == if key != 0 { cut.parents.insert(i, (pm, node_upload_request.sectant)) } else { cut.parents }
                &&& final(self).brick_slots() == cut.bricks
                &&& r.1.modified_nodes@ == if key != 0 { cut_nodes.push(pm) } else { cut_nodes }
            },
    {
        proof {
            tree.lemma_wf_lens();
        }
        let node_key = node_upload_request.node_key;
        let mut modified: Vec<usize> = Vec::new();
        let (node_index, robbed_parent) = if node_key == 0 {
            (0usize, None)
        } else {
            match self.first_available_node() {
                Some(found) => found,
                None => {
                    return (0, CacheUpdatePackage { allocation_failed: true, brick_update: None, modified_nodes: modified });
                },
            }
        };
        let ghost after_pick = *self;
        proof {
            lemma_insert_keeps_injective(self.node_slots(), node_key, node_index as u64);
        }
        bimap_insert(&mut self.upload_targets.node_key_vs_meta_index, node_key, node_index as u64);
        proof {
            assert forall|k: usize| #[trigger] self.node_slots().contains_key(k)
                implies self.node_slots()[k] < self.nodes_in_view by {
                if k != node_key {
                    assert(after_pick.node_slots().contains_key(k));
                }
            }
        }
        match robbed_parent {
            Some((pm, ps)) => {
                proof {
                    assert(old(self).parents().contains_key(node_index));
                    assert(old(self).first_free(node_index));
                    assert(self.child_erasable(tree, pm, ps as usize));
                }
                let mut erased = self.erase_node_child(pm, ps as usize, tree);
                modified.append(&mut erased);
            },
            None => {
                assert forall|i: usize| #[trigger] self.parents().contains_key(i)
                    implies self.parents()[i].0 < self.nodes_in_view && self.parents()[i].1 < 64 by {
                    assert(old(self).parents().contains_key(i));
                }
                assert(self.wf());
                modified.push(node_index);
            },
        }
        let ghost after_erase = *self;
        inject_node_properties(&mut self.render_data.node_metadata, node_index, tree, node_key);
        let bits = tree.stored_occupied_bits(node_key);
        self.render_data.node_ocbits.set(node_index * 2, (bits & 0xFFFF_FFFFu64) as u32);
        self.render_data.node_ocbits.set(node_index * 2 + 1, ((bits & 0xFFFF_FFFF_0000_0000u64) >> 32u64) as u32);
        if node_key != 0 {
            let parent_key = node_upload_request.parent_key;
            let ghost pm0 = old(self).node_slots()[parent_key];
            proof {
                if parent_key != node_key {
                    assert(old(self).first_free(node_index));
                    assert(pm0 != node_index as u64);
                }
            }
            let parent_meta = match bimap_get_by_left(&self.upload_targets.node_key_vs_meta_index, parent_key) {
                Some(m) => m as usize,
                None => {
                    proof {
                        assert(self.node_slots().contains_key(parent_key));
                    }
                    0
                },
            };
            let sectant = node_upload_request.sectant;
            self.render_data.node_children.set(parent_meta * 64 + sectant as usize, node_index as u32);
            self.upload_targets.node_index_vs_parent.insert(node_index, (parent_meta, sectant));
            modified.push(parent_meta);
        }
        let ghost before_fill = *self;
        proof {
            assert forall|i: usize| #[trigger] self.parents().contains_key(i)
                implies self.parents()[i].0 < self.nodes_in_view && self.parents()[i].1 < 64 by {
                if i != node_index {
                    assert(after_erase.parents().contains_key(i));
                }
            }
            assert(self.wf());
        }
        let base = node_index * 64;
        let mut s: usize = 0;
        while s < 64
            invariant
                self.wf(),
                tree.wf(),
                node_key < tree.node_count(),
                base == node_index * 64,
                node_index < self.nodes_in_view,
                s <= 64,
                self.node_slots() == before_fill.node_slots(),
                self.brick_slots() == before_fill.brick_slots(),
                self.parents() == before_fill.parents(),
                self.wanted() == before_fill.wanted(),
                self.nodes_in_view == before_fill.nodes_in_view,
                self.upload_state.victim_node == before_fill.upload_state.victim_node,
                self.render_data.node_mips@ == before_fill.render_data.node_mips@,
                self.render_data.node_ocbits@ == before_fill.render_data.node_ocbits@,
                self.render_data.node_metadata@ == before_fill.render_data.node_metadata@,
                self.render_data.node_children@.len() == before_fill.render_data.node_children@.len(),
                forall|j: int| 0 <= j < self.render_data.node_children@.len() && !(base <= j < base + 64)
                    ==> #[trigger] self.render_data.node_children@[j] == before_fill.render_data.node_children@[j],
                forall|t: int| 0 <= t < s ==> #[trigger] self.render_data.node_children@[base + t]
                    == self.child_word(tree, node_key as int, t),
            decreases 64 - s,
        {
            let w = self.child_word_exec(tree, node_key, s);
            self.render_data.node_children.set(base + s, w);
            s += 1;
        }
        let m = self.mip_word_exec(tree, node_key);
        self.render_data.node_mips.set(node_index, m);
        proof {
            if node_key != 0 {
                let pm = self.node_slots()[node_upload_request.parent_key] as usize;
                if pm != node_index {
                    let j = 64 * pm + node_upload_request.sectant;
                    assert(!(base <= j < base + 64));
                }
            }
        }
        (node_index, CacheUpdatePackage { allocation_failed: false, brick_update: None, modified_nodes: modified })
    }
}


/// The owner a code stands for: the inverse of `owner_code`
pub open spec fn owner_of_code(code: u64) -> BrickOwnedBy {
    let tag = code / 0x100_0000_0000u64;
    let rest = code % 0x100_0000_0000u64;
    if tag == 1 {
        BrickOwnedBy::NodeAsChild((rest / 256) as u32, (rest % 256) as u8)
    } else if tag == 2 {
        BrickOwnedBy::NodeAsMIP((rest / 256) as u32)
    } else {
        BrickOwnedBy::Unowned
    }
}

/// Every owner is found again from its code
pub proof fn lemma_owner_code_inverse(o: BrickOwnedBy)
    ensures
        owner_of_code(owner_code(o)) == o,
{
    match o {
        BrickOwnedBy::Unowned => {},
        BrickOwnedBy::NodeAsChild(k, s) => {
            let rest: int = k * 256 + s;
            assert(0 <= rest < 0x100_0000_0000) by (nonlinear_arith)
                requires rest == k * 256 + s, 0 <= k < 0x1_0000_0000, 0 <= s < 256;
            assert(owner_code(o) == 0x100_0000_0000 + rest);
            vstd::arithmetic::div_mod::lemma_div_plus_one(rest, 0x100_0000_0000);
            assert(rest / 256 == k && rest % 256 == s) by (nonlinear_arith)
                requires rest == k * 256 + s, 0 <= s < 256;
        },
        BrickOwnedBy::NodeAsMIP(k) => {
            let rest: int = k * 256;
            assert(0 <= rest < 0x100_0000_0000) by (nonlinear_arith)
                requires rest == k * 256, 0 <= k < 0x1_0000_0000;
            assert(owner_code(o) == 0x200_0000_0000 + rest);
            assert((0x200_0000_0000 + rest) / 0x100_0000_0000 == 2 && (0x200_0000_0000 + rest) % 0x100_0000_0000 == rest) by (nonlinear_arith)
                requires 0 <= rest < 0x100_0000_0000;
            assert(rest / 256 == k) by (nonlinear_arith)
                requires rest == k * 256;
        },
    }
}

/// The owner a code stands for
pub fn brick_owner_of_code(code: u64) -> (r: BrickOwnedBy)
    ensures
        r == owner_of_code(code),
{
    let tag = code / 0x100_0000_0000u64;
    let rest = code % 0x100_0000_0000u64;
    if tag == 1 {
        BrickOwnedBy::NodeAsChild((rest / 256) as u32, (rest % 256) as u8)
    } else if tag == 2 {
        BrickOwnedBy::NodeAsMIP((rest / 256) as u32)
    } else {
        BrickOwnedBy::Unowned
    }
}


/// The brick of the tree an owner names: the brick of a leaf at a sectant, the one brick of a
/// uniform leaf, or the MIP of a node; none for a slot without owner
pub closed spec fn requested_brick<T>(tree: &BoxTree<T>, o: BrickOwnedBy) -> BrickData {
    match o {
        BrickOwnedBy::NodeAsChild(k, s) => match tree.nodes@[k as int] {
            NodeContent::UniformLeaf(b) => b,
            NodeContent::Leaf(bricks) => bricks@[s as int],
            _ => BrickData::Empty,
        },
        BrickOwnedBy::NodeAsMIP(k) => tree.node_mips@[k as int],
        BrickOwnedBy::Unowned => BrickData::Empty,
    }
}

/// The request names a brick of the tree that can be written into a slot: a brick of a leaf
/// or the MIP of a node, not a solid one
pub closed spec fn brick_request_valid<T>(tree: &BoxTree<T>, o: BrickOwnedBy) -> bool {
    &&& match o {
        BrickOwnedBy::NodeAsChild(k, s) => k < tree.node_count() && s < 64
            && (tree.nodes@[k as int] is Leaf || tree.nodes@[k as int] is UniformLeaf),
        BrickOwnedBy::NodeAsMIP(k) => k < tree.node_count(),
        BrickOwnedBy::Unowned => false,
    }
    &&& !(requested_brick(tree, o) is Solid)
}

/// The key of the node an owner belongs to
pub open spec fn owner_key(o: BrickOwnedBy) -> usize {
    match o {
        BrickOwnedBy::NodeAsChild(k, _) => k as usize,
        BrickOwnedBy::NodeAsMIP(k) => k as usize,
        BrickOwnedBy::Unowned => 0,
    }
}

impl BoxTreeGPUDataHandler {
    /// The brick slot can be taken over: where a leaf brick of a node in the cache sits there,
    /// that node's child entry can be erased
    pub open spec fn slot_takeable<T>(&self, tree: &BoxTree<T>, slot: usize) -> bool {
        self.brick_slots().contains_key(slot) ==> match owner_of_code(self.brick_slots()[slot]) {
            BrickOwnedBy::NodeAsChild(vk, vs) => self.node_slots().contains_key(vk as usize)
                ==> self.child_erasable(tree, self.node_slots()[vk as usize] as usize, vs as usize),
            _ => true,
        }
    }

    /// Writes a brick of the tree into the brick slot `brick_index`, chosen by the caller: what
    /// sat in the slot before is cut from its node, the slot is given to the brick's owner, and
    /// the owner's child entry (for a leaf brick) or MIP entry points to the slot. An empty
    /// brick changes nothing. Gives the brick written and the node indices modified.
    pub fn add_brick<'a, T>(&mut self, tree: &'a BoxTree<T>, brick_index: usize, brick_request: BrickUploadRequest) -> (r: CacheUpdatePackage<'a>)
        requires
            old(self).wf(),
            tree.wf(),
            brick_request_valid(tree, brick_request.ownership),
            requested_brick(tree, brick_request.ownership) is Parted ==> {
                &&& old(self).slot_takeable(tree, brick_index)
                &&& old(self).node_slots().contains_key(owner_key(brick_request.ownership))
            },
        ensures
            final(self).wf(),
            final(self).node_slots() == old(self).node_slots(),
            final(self).wanted() == old(self).wanted(),
            !r.allocation_failed,
            final(self).ocbits_words() == old(self).ocbits_words(),
            final(self).metadata_words() == old(self).metadata_words(),
            final(self).victim_node() == old(self).victim_node(),
            requested_brick(tree, brick_request.ownership) is Empty ==> {
                &&& r.brick_update is None
                &&& r.modified_nodes@.len() == 0
                &&& final(self).links() == old(self).links()
            },
            requested_brick(tree, brick_request.ownership) matches BrickData::Parted(b) ==> {
                let o = brick_request.ownership;
                let pm = old(self).node_slots()[owner_key(o)] as int;
                let w = (brick_index as u32) & 0x7FFF_FFFFu32;
                let cut = slot_cut_links(old(self).links(), old(self).node_slots(), tree, brick_index);
                &&& r.brick_update matches Some(u) && u.brick_index == brick_index && u.data@ == b@
                &&& final(self).links() == (CacheLinks {
                    children: match o {
                        BrickOwnedBy::NodeAsChild(_, s) => cut.children.update(64 * pm + s, w),
                        _ => cut.children,
                    },
                    mips: match o {
                        BrickOwnedBy::NodeAsChild(_, _) => cut.mips,
                        _ => cut.mips.update(pm, w),
                    },
                    parents: cut.parents,
                    bricks: pairs_after_insert(cut.bricks, brick_index, owner_code(o)),
                })
                &&& r.modified_nodes@ == slot_cut_nodes(old(self).links(), old(self).node_slots(), tree, brick_index).push(pm as usize)
            },
    {
        proof {
            tree.lemma_wf_lens();
            lemma_owner_code_inverse(brick_request.ownership);
        }
        let owner = brick_request.ownership;
        let (parent_node_key, target_sectant, brick): (usize, usize, &'a BrickData) = match owner {
            BrickOwnedBy::NodeAsChild(k, s) => {
                proof {
                    tree.lemma_leaf_len(k as int);
                }
                match &tree.nodes[k as usize] {
                    NodeContent::UniformLeaf(b) => (k as usize, s as usize, b),
                    NodeContent::Leaf(bricks) => (k as usize, s as usize, &bricks[s as usize]),
                    _ => {
                        return CacheUpdatePackage { allocation_failed: false, brick_update: None, modified_nodes: Vec::new() };
                    },
                }
            },
            BrickOwnedBy::NodeAsMIP(k) => (k as usize, 64usize, &tree.node_mips[k as usize]),
            BrickOwnedBy::Unowned => {
                return CacheUpdatePackage { allocation_failed: false, brick_update: None, modified_nodes: Vec::new() };
            },
        };
        assert(*brick == requested_brick(tree, owner));
        let data: &'a Vec<u32> = match brick {
            BrickData::Parted(b) => b,
            _ => {
                return CacheUpdatePackage { allocation_failed: false, brick_update: None, modified_nodes: Vec::new() };
            },
        };
        let mut modified: Vec<usize> = match bimap_get_by_left(&self.upload_targets.brick_ownership, brick_index) {
            Some(code) => match brick_owner_of_code(code) {
                BrickOwnedBy::NodeAsChild(vk, vs) => match bimap_get_by_left(&self.upload_targets.node_key_vs_meta_index, vk as usize) {
                    Some(vm) => self.erase_node_child(vm as usize, vs as usize, tree),
                    None => Vec::new(),
                },
                BrickOwnedBy::NodeAsMIP(vk) => match bimap_get_by_left(&self.upload_targets.node_key_vs_meta_index, vk as usize) {
                    Some(vm) => {
                        self.render_data.node_mips.set(vm as usize, EMPTY_MARKER);
                        let mut v: Vec<usize> = Vec::new();
                        v.push(vm as usize);
                        v
                    },
                    None => Vec::new(),
                },
                BrickOwnedBy::Unowned => Vec::new(),
            },
            None => Vec::new(),
        };
        proof {
            if self.parents() == old(self).parents() {
                assert forall|i: usize| #[trigger] self.parents().contains_key(i)
                    implies self.parents()[i].0 < self.nodes_in_view && self.parents()[i].1 < 64 by {
                    assert(old(self).parents().contains_key(i));
                }
            }
            assert(self.wf());
        }
        let parent_meta = match bimap_get_by_left(&self.upload_targets.node_key_vs_meta_index, parent_node_key) {
            Some(m) => m as usize,
            None => {
                proof {
                    assert(old(self).node_slots().contains_key(parent_node_key));
                }
                0
            },
        };
        modified.push(parent_meta);
        let word = (brick_index as u32) & 0x7FFF_FFFFu32;
        if target_sectant < 64 {
            self.render_data.node_children.set(parent_meta * 64 + target_sectant, word);
        } else {
            self.render_data.node_mips.set(parent_meta, word);
        }
        let code = brick_owner_code(owner);
        proof {
            lemma_insert_keeps_injective(self.brick_slots(), brick_index, code);
        }
        proof {
            assert(self.wf());
        }
        let ghost before_insert = *self;
        bimap_insert(&mut self.upload_targets.brick_ownership, brick_index, code);
        proof {
            assert(self.parents() == before_insert.parents());
            assert(self.node_slots() == before_insert.node_slots());
            assert forall|i: usize| #[trigger] self.parents().contains_key(i)
                implies self.parents()[i].0 < self.nodes_in_view && self.parents()[i].1 < 64 by {
                assert(before_insert.parents().contains_key(i));
            }
            assert forall|k: usize| #[trigger] self.node_slots().contains_key(k)
                implies self.node_slots()[k] < self.nodes_in_view by {
                assert(before_insert.node_slots().contains_key(k));
            }
        }
        CacheUpdatePackage {
            allocation_failed: false,
            brick_update: Some(BrickUpdate { brick_index, data: data.as_slice() }),
            modified_nodes: modified,
        }
    }
}


impl BoxTreeGPUDataHandler {
    /// The node index the tree node sits at, if it is in the cache
    pub fn meta_index_of(&self, node_key: usize) -> (r: Option<usize>)
        requires
            self.wf(),
        ensures
            r == (if self.node_slots().contains_key(node_key) { Some(self.node_slots()[node_key] as usize) } else { None }),
    {
        match bimap_get_by_left(&self.upload_targets.node_key_vs_meta_index, node_key) {
            Some(m) => Some(m as usize),
            None => None,
        }
    }

    /// The owner of a brick slot
    pub fn brick_owner_at(&self, slot: usize) -> (r: BrickOwnedBy)
        ensures
            r == (if self.brick_slots().contains_key(slot) { owner_of_code(self.brick_slots()[slot]) } else { BrickOwnedBy::Unowned }),
    {
        match bimap_get_by_left(&self.upload_targets.brick_ownership, slot) {
            Some(code) => brick_owner_of_code(code),
            None => BrickOwnedBy::Unowned,
        }
    }

    /// True if the tree node should be in the cache
    pub fn is_seen(&self, node_key: usize) -> (r: bool)
        ensures
            r == self.wanted().contains(node_key),
    {
        self.upload_targets.nodes_to_see.contains(&node_key)
    }

    /// Marks the tree node as one that should be in the cache
    pub fn see_node(&mut self, node_key: usize)
        requires
            old(self).wf(),
        ensures
            final(self).wf(),
            final(self).wanted() == old(self).wanted().insert(node_key),
            final(self).node_slots() == old(self).node_slots(),
            final(self).brick_slots() == old(self).brick_slots(),
            final(self).parents() == old(self).parents(),
            final(self).children_words() == old(self).children_words(),
            final(self).mip_words() == old(self).mip_words(),
            final(self).ocbits_words() == old(self).ocbits_words(),
            final(self).metadata_words() == old(self).metadata_words(),
            final(self).victim_node() == old(self).victim_node(),
    {
        self.upload_targets.nodes_to_see.insert(node_key);
        proof {
            assert forall|i: usize| #[trigger] self.parents().contains_key(i)
                implies self.parents()[i].0 < self.nodes_in_view && self.parents()[i].1 < 64 by {
                assert(old(self).parents().contains_key(i));
            }
            assert forall|k: usize| #[trigger] self.node_slots().contains_key(k)
                implies self.node_slots()[k] < self.nodes_in_view by {
                assert(old(self).node_slots().contains_key(k));
            }
        }
    }
}


/// How a brick slot stands when a slot to overwrite is searched for
#[derive(Debug, Clone, Copy, PartialEq, Eq)]
pub enum SlotStanding {
    /// No brick sits in the slot
    Free,
    /// A brick of a leaf sits in the slot; whether it may go depends on where it lies
    LeafBrick,
    /// The MIP of a node the view no longer needs, whose child entries are all empty
    StaleLoneMip,
    /// The MIP of a node the view no longer needs, with a child entry in the cache
    StaleMip,
    /// The MIP of a node the view needs
    NeededMip,
}

impl BoxTreeGPUDataHandler {
    /// How the brick slot stands: by its owner, and for the MIP of a node the view no longer
    /// needs, by whether every child entry of that node is empty
    pub open spec fn slot_standing(&self, slot: usize) -> SlotStanding {
        match slot_owner(self.brick_slots(), slot) {
            BrickOwnedBy::Unowned => SlotStanding::Free,
            BrickOwnedBy::NodeAsChild(_, _) => SlotStanding::LeafBrick,
            BrickOwnedBy::NodeAsMIP(k) => if self.wanted().contains(k as usize) {
                SlotStanding::NeededMip
            } else if forall|s: int| 0 <= s < 64
                ==> #[trigger] self.children_words()[64 * self.node_slots()[k as usize] + s] == EMPTY_MARKER {
                SlotStanding::StaleLoneMip
            } else {
                SlotStanding::StaleMip
            },
        }
    }

    /// The MIP in the slot, where the view no longer needs its node, belongs to a node in the
    /// cache
    pub open spec fn stale_mip_cached(&self, slot: usize) -> bool {
        match slot_owner(self.brick_slots(), slot) {
            BrickOwnedBy::NodeAsMIP(k) => !self.wanted().contains(k as usize)
                ==> self.node_slots().contains_key(k as usize),
            _ => true,
        }
    }

    /// What each standing of a brick slot means: a free slot has no owner, a leaf brick's slot
    /// is owned by a sectant of a leaf, a needed MIP belongs to a node the view needs; the MIP
    /// of a node the view no longer needs stands lone only if all 64 child entries of that node
    /// are empty, and stands stale where the node sits in the cache with a child entry that is
    /// not empty
    pub proof fn lemma_slot_standing(&self, slot: usize)
        ensures
            (self.slot_standing(slot) == SlotStanding::Free) <==> !self.brick_slots().contains_key(slot)
                || owner_of_code(self.brick_slots()[slot]) is Unowned,
            (self.slot_standing(slot) == SlotStanding::LeafBrick) <==> self.brick_slots().contains_key(slot)
                && owner_of_code(self.brick_slots()[slot]) is NodeAsChild,
            (self.slot_standing(slot) == SlotStanding::NeededMip) <==> (self.brick_slots().contains_key(slot)
                && (owner_of_code(self.brick_slots()[slot]) matches BrickOwnedBy::NodeAsMIP(k)
                && self.wanted().contains(k as usize))),
            self.slot_standing(slot) == SlotStanding::StaleLoneMip ==> (self.brick_slots().contains_key(slot)
                && (owner_of_code(self.brick_slots()[slot]) matches BrickOwnedBy::NodeAsMIP(k)
                && !self.wanted().contains(k as usize)
                && forall|s: int| 0 <= s < 64
                    ==> #[trigger] self.children_words()[64 * self.node_slots()[k as usize] + s] == EMPTY_MARKER)),
            self.slot_standing(slot) == SlotStanding::StaleMip && self.stale_mip_cached(slot) ==> (
                self.brick_slots().contains_key(slot)
                && (owner_of_code(self.brick_slots()[slot]) matches BrickOwnedBy::NodeAsMIP(k)
                && !self.wanted().contains(k as usize)
                && self.node_slots().contains_key(k as usize)
                && exists|s: int| 0 <= s < 64
                    && #[trigger] self.children_words()[64 * self.node_slots()[k as usize] + s] != EMPTY_MARKER)),
    {
    }

    /// How the brick slot stands when a slot to overwrite is searched for
    pub fn brick_slot_standing(&self, slot: usize) -> (r: SlotStanding)
        requires
            self.wf(),
            self.stale_mip_cached(slot),
        ensures
            r == self.slot_standing(slot),
    {
        match self.brick_owner_at(slot) {
            BrickOwnedBy::Unowned => SlotStanding::Free,
            BrickOwnedBy::NodeAsChild(_, _) => SlotStanding::LeafBrick,
            BrickOwnedBy::NodeAsMIP(k) => {
                if self.is_seen(k as usize) {
                    return SlotStanding::NeededMip;
                }
                let m = match self.meta_index_of(k as usize) {
                    Some(m) => m,
                    None => {
                        return SlotStanding::StaleMip;
                    },
                };
                let base = m * 64;
                let mut s: usize = 0;
                while s < 64
                    invariant
                        self.wf(),
                        m < self.nodes_in_view,
                        base == m * 64,
                        slot_owner(self.brick_slots(), slot) == BrickOwnedBy::NodeAsMIP(k),
                        !self.wanted().contains(k as usize),
                        self.node_slots().contains_key(k as usize),
                        m == self.node_slots()[k as usize],
                        s <= 64,
                        forall|t: int| 0 <= t < s ==> #[trigger] self.children_words()[base + t] == EMPTY_MARKER,
                    decreases 64 - s,
                {
                    if self.render_data.node_children[base + s] != EMPTY_MARKER {
                        proof {
                            assert(self.children_words()[64 * self.node_slots()[k as usize] + s as int] != EMPTY_MARKER);
                        }
                        return SlotStanding::StaleMip;
                    }
                    s += 1;
                }
                SlotStanding::StaleLoneMip
            },
        }
    }
}


/// What to do next with the node upload queue
#[derive(Debug, Clone, Copy)]
pub enum NodeUploadStep {
    /// The node is in the cache but its parted MIP is not: write the MIP brick again
    ReuploadMip(usize),
    /// Write the node, then its MIP brick
    UploadNode(NodeUploadRequest),
    /// Every node of the queue is in the cache
    Done,
}

impl BoxTreeGPUDataHandler {
    /// The node sits in the cache with its parted MIP missing from its MIP entry
    pub closed spec fn mip_missing<T>(&self, tree: &BoxTree<T>, key: usize) -> bool {
        &&& self.node_slots().contains_key(key)
        &&& tree.node_mips@[key as int] is Parted
        &&& self.render_data.node_mips@[self.node_slots()[key] as int] == EMPTY_MARKER
    }

    /// A node's MIP is missing exactly where the node sits in the cache, its MIP in the tree is
    /// parted, and its MIP entry in the render data is empty
    pub proof fn lemma_mip_missing<T>(&self, tree: &BoxTree<T>, key: usize)
        ensures
            self.mip_missing(tree, key) <==> (self.node_slots().contains_key(key) && tree.mip_is_parted(key as int)
                && self.mip_words()[self.node_slots()[key] as int] == EMPTY_MARKER),
    {
        tree.lemma_kinds_read_fields(key as int);
    }

    /// Finds the next node upload from `progress` on in the queue: nodes already in the cache
    /// with their MIP in place are passed over. Gives the new progress and the step: the MIP of a
    /// cached node to write again, the node to write, or nothing left.
    pub fn next_node_upload<T>(&self, tree: &BoxTree<T>, queue: &Vec<NodeUploadRequest>, progress: usize) -> (r: (usize, NodeUploadStep))
        requires
            self.wf(),
            tree.wf(),
            progress <= queue@.len(),
            forall|j: int| 0 <= j < queue@.len() ==> #[trigger] queue@[j].node_key < tree.node_count(),
        ensures
            progress <= r.0 <= queue@.len(),
            forall|j: int| progress <= j < r.0 ==> self.node_slots().contains_key(#[trigger] queue@[j].node_key)
                && !self.mip_missing(tree, queue@[j].node_key),
            r.0 == queue@.len() <==> r.1 is Done,
            r.1 matches NodeUploadStep::ReuploadMip(k) ==> k == queue@[r.0 as int].node_key && self.mip_missing(tree, k),
            r.1 matches NodeUploadStep::UploadNode(q) ==> q == queue@[r.0 as int]
                && !self.node_slots().contains_key(q.node_key),
            progress < queue@.len() && self.node_slots().contains_key(queue@[progress as int].node_key)
                && tree.mip_is_parted(queue@[progress as int].node_key as int)
                && self.mip_words()[self.node_slots()[queue@[progress as int].node_key] as int] == EMPTY_MARKER
                ==> r.0 == progress && r.1 == NodeUploadStep::ReuploadMip(queue@[progress as int].node_key),
    {
        proof {
            tree.lemma_wf_lens();
            if progress < queue@.len() {
                self.lemma_mip_missing(tree, queue@[progress as int].node_key);
            }
        }
        let mut i = progress;
        while i < queue.len()
            invariant
                self.wf(),
                tree.wf(),
                tree.node_count() == tree.nodes@.len(),
                tree.node_mips@.len() == tree.nodes@.len(),
                progress <= i <= queue@.len(),
                forall|j: int| 0 <= j < queue@.len() ==> #[trigger] queue@[j].node_key < tree.node_count(),
                forall|j: int| progress <= j < i ==> self.node_slots().contains_key(#[trigger] queue@[j].node_key)
                    && !self.mip_missing(tree, queue@[j].node_key),
                progress < queue@.len() ==> (self.mip_missing(tree, queue@[progress as int].node_key) <==> (
                    self.node_slots().contains_key(queue@[progress as int].node_key)
                    && tree.mip_is_parted(queue@[progress as int].node_key as int)
                    && self.mip_words()[self.node_slots()[queue@[progress as int].node_key] as int] == EMPTY_MARKER)),
            decreases queue@.len() - i,
        {
            let request = queue[i];
            match bimap_get_by_left(&self.upload_targets.node_key_vs_meta_index, request.node_key) {
                None => {
                    return (i, NodeUploadStep::UploadNode(request));
                },
                Some(meta) => {
                    let parted = match &tree.node_mips[request.node_key] {
                        BrickData::Parted(_) => true,
                        _ => false,
                    };
                    if parted && self.render_data.node_mips[meta as usize] == EMPTY_MARKER {
                        return (i, NodeUploadStep::ReuploadMip(request.node_key));
                    }
                },
            }
            i += 1;
        }
        (i, NodeUploadStep::Done)
    }

    /// The brick request can be written now: it is not in the cache yet, and the node it
    /// belongs to is in the cache and seen
    pub closed spec fn brick_uploadable(&self, o: BrickOwnedBy) -> bool {
        &&& slot_of(self.brick_slots(), owner_code(o)) is None
        &&& self.node_slots().contains_key(owner_key(o))
        &&& self.wanted().contains(owner_key(o))
    }

    /// Finds the next brick request from `progress` on in the queue that can be written now
    pub fn next_brick_upload(&self, queue: &Vec<BrickOwnedBy>, progress: usize) -> (r: Option<usize>)
        requires
            self.wf(),
            forall|j: int| 0 <= j < queue@.len() ==> !(#[trigger] queue@[j] is Unowned),
        ensures
            r matches Some(i) ==> progress <= i < queue@.len() && self.brick_uploadable(queue@[i as int])
                && forall|j: int| progress <= j < i ==> !self.brick_uploadable(#[trigger] queue@[j]),
            r is None ==> forall|j: int| progress <= j < queue@.len() ==> !self.brick_uploadable(#[trigger] queue@[j]),
    {
        let mut i = progress;
        while i < queue.len()
            invariant
                self.wf(),
                progress <= i,
                forall|j: int| 0 <= j < queue@.len() ==> !(#[trigger] queue@[j] is Unowned),
                forall|j: int| progress <= j < i && j < queue@.len() ==> !self.brick_uploadable(#[trigger] queue@[j]),
            decreases queue@.len() - i,
        {
            let o = queue[i];
            let key: usize = match o {
                BrickOwnedBy::NodeAsChild(k, _) => k as usize,
                BrickOwnedBy::NodeAsMIP(k) => k as usize,
                BrickOwnedBy::Unowned => 0,
            };
            let missing = self.slot_for(brick_owner_code(o)).is_none();
            let parent_in = bimap_get_by_left(&self.upload_targets.node_key_vs_meta_index, key).is_some();
            if missing && parent_in && self.upload_targets.nodes_to_see.contains(&key) {
                return Some(i);
            }
            i += 1;
        }
        None
    }
}


impl BoxTreeGPUDataHandler {
    /// The number of palette colors written to the GPU
    pub closed spec fn uploaded_colors(&self) -> usize {
        self.upload_state.uploaded_color_palette_size
    }

    /// The MIP feature as the render data knows it
    pub closed spec fn mips_shown(&self) -> bool {
        self.render_data.mips_enabled
    }

    /// The number of palette colors written to the GPU
    pub fn uploaded_color_count(&self) -> (r: usize)
        ensures
            r == self.uploaded_colors(),
    {
        self.upload_state.uploaded_color_palette_size
    }

    /// The palette colors the GPU still lacks when the tree holds `host_color_count` colors:
    /// the range from the colors already written to the count, which is recorded as written
    pub fn palette_upload_range(&mut self, host_color_count: usize) -> (r: (usize, usize))
        requires
            old(self).wf(),
            old(self).uploaded_colors() <= host_color_count,
        ensures
            final(self).wf(),
            r == (old(self).uploaded_colors(), host_color_count),
            final(self).uploaded_colors() == host_color_count,
            final(self).node_slots() == old(self).node_slots(),
            final(self).brick_slots() == old(self).brick_slots(),
            final(self).parents() == old(self).parents(),
            final(self).wanted() == old(self).wanted(),
    {
        let start = self.upload_state.uploaded_color_palette_size;
        self.upload_state.uploaded_color_palette_size = host_color_count;
        proof {
            assert forall|i: usize| #[trigger] self.parents().contains_key(i)
                implies self.parents()[i].0 < self.nodes_in_view && self.parents()[i].1 < 64 by {
                assert(old(self).parents().contains_key(i));
            }
            assert forall|k: usize| #[trigger] self.node_slots().contains_key(k)
                implies self.node_slots()[k] < self.nodes_in_view by {
                assert(old(self).node_slots().contains_key(k));
            }
        }
        (start, host_color_count)
    }

    /// Where the tree's MIP feature differs from what the render data shows, records the
    /// tree's and gives the new properties word of the tree; nothing otherwise
    pub fn mip_feature_update<T>(&mut self, tree: &BoxTree<T>) -> (r: Option<u32>)
        requires
            old(self).wf(),
        ensures
            final(self).wf(),
            final(self).mips_shown() == tree.strategy().spec_enabled(),
            old(self).mips_shown() != tree.strategy().spec_enabled()
                <==> r == Some(properties_word(tree.spec_brick_dim(), tree.strategy().spec_enabled())),
            old(self).mips_shown() == tree.strategy().spec_enabled() <==> r is None,
            final(self).node_slots() == old(self).node_slots(),
            final(self).brick_slots() == old(self).brick_slots(),
            final(self).parents() == old(self).parents(),
            final(self).wanted() == old(self).wanted(),
    {
        proof {
            tree.lemma_strategy_field();
        }
        let enabled = tree.mip_map_strategy.is_enabled();
        if self.render_data.mips_enabled != enabled {
            self.render_data.mips_enabled = enabled;
            proof {
                assert forall|i: usize| #[trigger] self.parents().contains_key(i)
                    implies self.parents()[i].0 < self.nodes_in_view && self.parents()[i].1 < 64 by {
                    assert(old(self).parents().contains_key(i));
                }
                assert forall|k: usize| #[trigger] self.node_slots().contains_key(k)
                    implies self.node_slots()[k] < self.nodes_in_view by {
                    assert(old(self).node_slots().contains_key(k));
                }
            }
            Some(boxtree_properties(tree))
        } else {
            None
        }
    }
}

impl BoxTreeGPUDataHandler {
    /// A node upload request can be carried out: the node is a node of the tree and, for a node
    /// other than the root, the sectant is one of the 64, the parent sits in the cache and, where
    /// a free index is found for the node, the parent does not sit there (unless it is the node
    /// itself) and the node sitting there can be cut from its parent once the new node is paired
    /// with the index
    pub open spec fn node_addable<T>(&self, tree: &BoxTree<T>, req: NodeUploadRequest) -> bool {
        &&& req.node_key < tree.node_count()
        &&& req.node_key != 0 ==> {
            &&& req.sectant < 64
            &&& self.node_slots().contains_key(req.parent_key)
            &&& forall|i: usize| #[trigger] self.first_free(i) ==> {
                &&& (req.parent_key == req.node_key || self.node_slots()[req.parent_key] != i as u64)
                &&& self.parents().contains_key(i) ==> erasable_in(
                    pairs_after_insert(self.node_slots(), req.node_key, i as u64),
                    self.children_words(),
                    self.node_capacity(),
                    tree,
                    self.parents()[i].0,
                    self.parents()[i].1 as usize,
                )
            }
        }
    }
}

/// The pairs of node keys and indices after the given pair, if any, is inserted
pub open spec fn slots_after(slots: Map<usize, u64>, ins: Option<(usize, usize)>) -> Map<usize, u64> {
    match ins {
        Some((k, i)) => pairs_after_insert(slots, k, i as u64),
        None => slots,
    }
}

impl BoxTreeGPUDataHandler {
    /// The key paired with a node index once the given pair, if any, is inserted
    fn key_after(&self, ins: Option<(usize, usize)>, m: usize) -> (r: Option<usize>)
        requires
            self.wf(),
        ensures
            r == (if index_in(slots_after(self.node_slots(), ins), m as int) {
                Some(key_in(slots_after(self.node_slots(), ins), m as int))
            } else {
                None
            }),
    {
        let ghost slots = self.node_slots();
        let ghost post = slots_after(slots, ins);
        proof {
            if let Some((k, i)) = ins {
                lemma_insert_keeps_injective(slots, k, i as u64);
            }
            assert(pairs_injective(post));
        }
        let found = bimap_get_by_right(&self.upload_targets.node_key_vs_meta_index, m as u64);
        let r = match ins {
            None => found,
            Some((k, i)) => {
                if m == i {
                    Some(k)
                } else {
                    match found {
                        Some(l) => if l == k { None } else { Some(l) },
                        None => None,
                    }
                }
            },
        };
        proof {
            match r {
                Some(l) => {
                    assert(post.contains_key(l) && post[l] == m as u64);
                    let c = key_in(post, m as int);
                    if c != l {
                        assert(pairs_injective(post));
                    }
                },
                None => {
                    if index_in(post, m as int) {
                        let l = choose|l: usize| post.contains_key(l) && post[l] == (m as int) as u64;
                        if let Some((k, i)) = ins {
                            if l != k {
                                assert(slots.contains_key(l) && slots[l] == m as u64);
                            }
                        }
                        assert(false);
                    }
                },
            }
        }
        r
    }

    /// True exactly where `erasable_in` holds of the pairs after the given pair, if any, is
    /// inserted, this cache's child entries and capacity
    fn erasable_exec<T>(&self, tree: &BoxTree<T>, ins: Option<(usize, usize)>, meta: usize, sectant: usize) -> (r: bool)
        requires
            self.wf(),
            tree.wf(),
        ensures
            r == erasable_in(slots_after(self.node_slots(), ins), self.children_words(), self.nodes_in_view, tree, meta, sectant),
    {
        proof {
            tree.lemma_wf_lens();
        }
        if meta >= self.nodes_in_view || sectant >= 64 {
            return false;
        }
        let pk = match self.key_after(ins, meta) {
            None => {
                return false;
            },
            Some(k) => k,
        };
        if pk >= tree.nodes.len() {
            return false;
        }
        proof {
            tree.lemma_kinds_read_fields(pk as int);
        }
        match &tree.nodes[pk] {
            NodeContent::Nothing => false,
            NodeContent::Internal(_) => {
                let c = self.render_data.node_children[meta * 64 + sectant];
                match self.key_after(ins, c as usize) {
                    None => false,
                    Some(ck) => ck < tree.nodes.len(),
                }
            },
            _ => true,
        }
    }

    /// True exactly where `add_node` can be asked to carry out the request
    pub fn can_add_node<T>(&self, tree: &BoxTree<T>, req: &NodeUploadRequest) -> (r: bool)
        requires
            self.wf(),
            tree.wf(),
        ensures
            r == self.node_addable(tree, *req),
    {
        proof {
            tree.lemma_wf_lens();
        }
        if req.node_key >= tree.nodes.len() {
            return false;
        }
        if req.node_key == 0 {
            return true;
        }
        if req.sectant >= 64 {
            return false;
        }
        let pm = match bimap_get_by_left(&self.upload_targets.node_key_vs_meta_index, req.parent_key) {
            None => {
                return false;
            },
            Some(m) => m,
        };
        match self.peek_free_node() {
            None => true,
            Some(i) => {
                proof {
                    assert forall|j: usize| #[trigger] self.first_free(j) implies j == i by {
                        self.lemma_first_free_unique(i, j);
                    }
                }
                let parent_ok = req.parent_key == req.node_key || pm != i as u64;
                if !parent_ok {
                    return false;
                }
                match self.upload_targets.node_index_vs_parent.get(&i) {
                    None => true,
                    Some(p) => self.erasable_exec(tree, Some((req.node_key, i)), p.0, p.1 as usize),
                }
            },
        }
    }

    /// True exactly where `add_brick` can be asked to write the brick into the slot
    pub fn can_add_brick<T>(&self, tree: &BoxTree<T>, slot: usize, req: &BrickUploadRequest) -> (r: bool)
        requires
            self.wf(),
            tree.wf(),
        ensures
            r == (brick_request_valid(tree, req.ownership) && (requested_brick(tree, req.ownership) is Parted ==> {
                &&& self.slot_takeable(tree, slot)
                &&& self.node_slots().contains_key(owner_key(req.ownership))
            })),
    {
        proof {
            tree.lemma_wf_lens();
        }
        let key: usize;
        let brick: &BrickData;
        match req.ownership {
            BrickOwnedBy::NodeAsChild(k, s) => {
                if k as usize >= tree.nodes.len() || s >= 64 {
                    return false;
                }
                proof {
                    tree.lemma_leaf_len(k as int);
                }
                match &tree.nodes[k as usize] {
                    NodeContent::UniformLeaf(b) => {
                        key = k as usize;
                        brick = b;
                    },
                    NodeContent::Leaf(bricks) => {
                        key = k as usize;
                        brick = &bricks[s as usize];
                    },
                    _ => {
                        return false;
                    },
                }
            },
            BrickOwnedBy::NodeAsMIP(k) => {
                if k as usize >= tree.nodes.len() {
                    return false;
                }
                key = k as usize;
                brick = &tree.node_mips[k as usize];
            },
            BrickOwnedBy::Unowned => {
                return false;
            },
        }
        match brick {
            BrickData::Solid(_) => false,
            BrickData::Empty => true,
            BrickData::Parted(_) => {
                if bimap_get_by_left(&self.upload_targets.node_key_vs_meta_index, key).is_none() {
                    return false;
                }
                match bimap_get_by_left(&self.upload_targets.brick_ownership, slot) {
                    None => true,
                    Some(code) => match brick_owner_of_code(code) {
                        BrickOwnedBy::NodeAsChild(vk, vs) => match bimap_get_by_left(&self.upload_targets.node_key_vs_meta_index, vk as usize) {
                            None => true,
                            Some(vm) => self.erasable_exec(tree, None, vm as usize, vs as usize),
                        },
                        _ => true,
                    },
                }
            },
        }
    }
}

/// A range of a render data buffer to write to the GPU, from `start` up to `end`; empty while
/// `end <= start`
#[derive(Debug, Clone, Copy, PartialEq, Eq)]
pub struct WriteRange {
    pub start: usize,
    pub end: usize,
}

/// The ranges of the node buffers that changed during a frame
#[derive(Debug, Clone, Copy, PartialEq, Eq)]
pub struct WriteRanges {
    /// Words of the node type bits
    pub metadata: WriteRange,
    /// Child entries
    pub children: WriteRange,
    /// MIP entries
    pub mips: WriteRange,
    /// Occupancy words
    pub ocbits: WriteRange,
}

/// The range is the smallest one covering `r` and the range from `from` up to `to`
pub open spec fn covers(n: WriteRange, r: WriteRange, from: int, to: int) -> bool {
    &&& n.start == (if from < r.start { from } else { r.start as int })
    &&& n.end == (if to > r.end { to } else { r.end as int })
}

/// The range starts at the smallest and ends at the largest of the given bounds and of `r`'s
pub open spec fn covers_all(n: WriteRange, r: WriteRange, froms: Seq<int>, tos: Seq<int>) -> bool {
    &&& n.start <= r.start
    &&& forall|i: int| 0 <= i < froms.len() ==> n.start <= #[trigger] froms[i]
    &&& (n.start == r.start || exists|i: int| 0 <= i < froms.len() && n.start == froms[i])
    &&& n.end >= r.end
    &&& forall|i: int| 0 <= i < tos.len() ==> n.end >= #[trigger] tos[i]
    &&& (n.end == r.end || exists|i: int| 0 <= i < tos.len() && n.end == tos[i])
}

/// Each node index `k` of the sequence taken to `k * mul / div + off`
pub open spec fn scaled(s: Seq<usize>, mul: int, div: int, off: int) -> Seq<int> {
    s.map_values(|x: usize| (mul * x as int) / div + off)
}

/// Widens a range to cover the range from `from` up to `to`
fn cover(r: WriteRange, from: usize, to: usize) -> (n: WriteRange)
    ensures
        covers(n, r, from as int, to as int),
{
    WriteRange {
        start: if from < r.start { from } else { r.start },
        end: if to > r.end { to } else { r.end },
    }
}

impl WriteRanges {
    /// No range: each starts at the largest index and ends at 0
    pub fn none() -> (r: Self)
        ensures
            r.metadata == (WriteRange { start: usize::MAX, end: 0 }),
            r.children == (WriteRange { start: usize::MAX, end: 0 }),
            r.mips == (WriteRange { start: usize::MAX, end: 0 }),
            r.ocbits == (WriteRange { start: usize::MAX, end: 0 }),
    {
        let e = WriteRange { start: usize::MAX, end: 0 };
        WriteRanges { metadata: e, children: e, mips: e, ocbits: e }
    }

    /// Widens the ranges to cover the nodes modified by one cache update: their type bits
    /// word, their 64 child entries and their MIP entry
    pub fn note_modified_nodes(&mut self, modified: &Vec<usize>)
        requires
            forall|i: int| 0 <= i < modified@.len() ==> 64 * #[trigger] modified@[i] + 64 <= usize::MAX,
        ensures
            final(self).ocbits == old(self).ocbits,
            covers_all(final(self).metadata, old(self).metadata,
                scaled(modified@, 1, 8, 0), scaled(modified@, 1, 8, 1)),
            covers_all(final(self).children, old(self).children,
                scaled(modified@, 64, 1, 0), scaled(modified@, 64, 1, 64)),
            covers_all(final(self).mips, old(self).mips,
                scaled(modified@, 1, 1, 0), scaled(modified@, 1, 1, 1)),
    {
        let ghost old_ranges = *self;
        let mut i: usize = 0;
        while i < modified.len()
            invariant
                i <= modified@.len(),
                forall|j: int| 0 <= j < modified@.len() ==> 64 * #[trigger] modified@[j] + 64 <= usize::MAX,
                self.ocbits == old_ranges.ocbits,
                covers_all(self.metadata, old_ranges.metadata,
                    scaled(modified@.subrange(0, i as int), 1, 8, 0), scaled(modified@.subrange(0, i as int), 1, 8, 1)),
                covers_all(self.children, old_ranges.children,
                    scaled(modified@.subrange(0, i as int), 64, 1, 0), scaled(modified@.subrange(0, i as int), 64, 1, 64)),
                covers_all(self.mips, old_ranges.mips,
                    scaled(modified@.subrange(0, i as int), 1, 1, 0), scaled(modified@.subrange(0, i as int), 1, 1, 1)),
            decreases modified@.len() - i,
        {
            let k = modified[i];
            let ghost pre = modified@.subrange(0, i as int);
            let ghost post = modified@.subrange(0, i + 1);
            assert(post == pre.push(k));
            let ghost before = *self;
            self.metadata = cover(self.metadata, k / 8, k / 8 + 1);
            self.children = cover(self.children, k * 64, k * 64 + 64);
            self.mips = cover(self.mips, k, k + 1);
            proof {
                lemma_cover_step(self.metadata, before.metadata, old_ranges.metadata, pre, k, 8, 1, 0, 1);
                lemma_cover_step(self.children, before.children, old_ranges.children, pre, k, 1, 64, 0, 64);
                lemma_cover_step(self.mips, before.mips, old_ranges.mips, pre, k, 1, 1, 0, 1);
            }
            i += 1;
        }
        assert(modified@.subrange(0, modified@.len() as int) == modified@);
    }

    /// Widens the occupancy range to cover the two words of a node written into the cache
    pub fn note_new_node(&mut self, node_index: usize)
        requires
            2 * node_index + 2 <= usize::MAX,
        ensures
            covers(final(self).ocbits, old(self).ocbits, 2 * node_index, 2 * node_index + 2),
            final(self).metadata == old(self).metadata,
            final(self).children == old(self).children,
            final(self).mips == old(self).mips,
    {
        self.ocbits = cover(self.ocbits, node_index * 2, node_index * 2 + 2);
    }
}

/// One more node index keeps a range covering all of them: `k * mul / div + off` up to
/// `k * mul / div + off + width`
proof fn lemma_cover_step(n: WriteRange, b: WriteRange, r: WriteRange, pre: Seq<usize>, k: usize, div: int, mul: int, off: int, width: int)
    requires
        div >= 1,
        covers_all(b, r, scaled(pre, mul, div, off), scaled(pre, mul, div, off + width)),
        covers(n, b, (mul * k as int) / div + off, (mul * k as int) / div + off + width),
    ensures
        covers_all(n, r, scaled(pre.push(k), mul, div, off), scaled(pre.push(k), mul, div, off + width)),
{
    let froms = scaled(pre.push(k), mul, div, off);
    let tos = scaled(pre.push(k), mul, div, off + width);
    let pf = scaled(pre, mul, div, off);
    let pt = scaled(pre, mul, div, off + width);
    assert forall|i: int| 0 <= i < pre.len() implies froms[i] == pf[i] && tos[i] == pt[i] by {}
    assert(froms[pre.len() as int] == (mul * k as int) / div + off);
    assert(tos[pre.len() as int] == (mul * k as int) / div + off + width);
    if n.start != r.start && n.start != froms[pre.len() as int] {
        let i = choose|i: int| 0 <= i < pf.len() && b.start == pf[i];
        assert(n.start == froms[i]);
    }
    if n.end != r.end && n.end != tos[pre.len() as int] {
        let i = choose|i: int| 0 <= i < pt.len() && b.end == pt[i];
        assert(n.end == tos[i]);
    }
}

/// Where the uploads of a frame stand: the progress through the node and brick queues, and how
/// many more nodes and bricks the frame may write
#[derive(Debug, Clone, Copy, PartialEq, Eq)]
pub struct FramePlan {
    pub node_progress: usize,
    pub brick_progress: usize,
    pub node_budget: usize,
    pub brick_budget: usize,
}

/// The next write of a frame
#[derive(Debug, Clone, Copy)]
pub enum UploadAction {
    /// Write the MIP brick of the node with this key, already in the cache
    WriteMip(usize),
    /// Write the node, then its MIP brick
    WriteNode(NodeUploadRequest),
    /// Write the brick request at this position of the brick queue
    WriteBrick(usize),
    /// Nothing more this frame
    Finished,
}

impl BoxTreeGPUDataHandler {
    /// How many nodes the cache writes in one frame
    pub closed spec fn nodes_per_frame(&self) -> usize {
        self.node_uploads_per_frame
    }

    /// How many bricks the cache writes in one frame
    pub closed spec fn bricks_per_frame(&self) -> usize {
        self.brick_uploads_per_frame
    }

    /// The plan of a frame: from the given progress, as many nodes as the cache writes per frame
    /// (at most as many as are left in the queue) and as many bricks
    pub fn start_frame(&self, node_queue_len: usize, node_progress: usize, brick_progress: usize) -> (r: FramePlan)
        requires
            node_progress <= node_queue_len,
        ensures
            r.node_progress == node_progress,
            r.brick_progress == brick_progress,
            r.node_budget == if self.nodes_per_frame() < node_queue_len - node_progress {
                self.nodes_per_frame() as int
            } else {
                node_queue_len - node_progress
            },
            r.brick_budget == self.bricks_per_frame(),
    {
        let left = node_queue_len - node_progress;
        FramePlan {
            node_progress,
            brick_progress,
            node_budget: if self.node_uploads_per_frame < left { self.node_uploads_per_frame } else { left },
            brick_budget: self.brick_uploads_per_frame,
        }
    }

    /// Decides the next write of a frame, and the plan once it is done. Nodes come first: cached
    /// nodes with their MIP in place are passed over, a cached node whose parted MIP is missing
    /// gets it written again (not counted against the budget), and the next node missing from
    /// the cache is written. Once the node budget or queue is used up, the next brick request
    /// that can be written is; the brick progress moves on only when that request is the one
    /// at the progress. Nothing more where neither is left.
    pub fn plan_step<T>(&self, tree: &BoxTree<T>, nodes: &Vec<NodeUploadRequest>, bricks: &Vec<BrickOwnedBy>, plan: FramePlan) -> (r: (FramePlan, UploadAction))
        requires
            self.wf(),
            tree.wf(),
            plan.node_progress <= nodes@.len(),
            forall|j: int| 0 <= j < nodes@.len() ==> #[trigger] nodes@[j].node_key < tree.node_count(),
            forall|j: int| 0 <= j < bricks@.len() ==> !(#[trigger] bricks@[j] is Unowned),
        ensures
            r.0.node_progress <= nodes@.len(),
            plan.node_budget > 0 && plan.node_progress < nodes@.len() && !(r.1 is WriteBrick || r.1 is Finished) ==> {
                let j = r.0.node_progress - 1;
                &&& plan.node_progress <= j < nodes@.len()
                &&& forall|m: int| plan.node_progress <= m < j ==> self.node_slots().contains_key(#[trigger] nodes@[m].node_key)
                    && !self.mip_missing(tree, nodes@[m].node_key)
                &&& r.0.brick_progress == plan.brick_progress && r.0.brick_budget == plan.brick_budget
                &&& match r.1 {
                    UploadAction::WriteMip(k) => k == nodes@[j].node_key && self.mip_missing(tree, k)
                        && r.0.node_budget == plan.node_budget,
                    UploadAction::WriteNode(q) => q == nodes@[j] && !self.node_slots().contains_key(q.node_key)
                        && r.0.node_budget == plan.node_budget - 1,
                    _ => false,
                }
            },
            (r.1 is WriteBrick || r.1 is Finished) ==> {
                &&& r.0.node_budget == 0
                &&& plan.node_budget > 0 ==> forall|m: int| plan.node_progress <= m < nodes@.len()
                    ==> self.node_slots().contains_key(#[trigger] nodes@[m].node_key) && !self.mip_missing(tree, nodes@[m].node_key)
                &&& plan.node_budget > 0 ==> r.0.node_progress == nodes@.len()
                &&& plan.node_budget == 0 ==> r.0.node_progress == plan.node_progress
            },
            r.1 matches UploadAction::WriteBrick(i) ==> {
                &&& plan.brick_budget > 0 && plan.brick_progress < bricks@.len()
                &&& plan.brick_progress <= i < bricks@.len() && self.brick_uploadable(bricks@[i as int])
                &&& forall|m: int| plan.brick_progress <= m < i ==> !self.brick_uploadable(#[trigger] bricks@[m])
                &&& r.0.brick_progress == if i == plan.brick_progress { plan.brick_progress + 1 } else { plan.brick_progress as int }
                &&& r.0.brick_budget == plan.brick_budget - 1
            },
            r.1 is Finished ==> plan.brick_budget == 0 || plan.brick_progress >= bricks@.len()
                || forall|m: int| plan.brick_progress <= m < bricks@.len() ==> !self.brick_uploadable(#[trigger] bricks@[m]),
    {
        let mut next = plan;
        if plan.node_budget > 0 && plan.node_progress < nodes.len() {
            let (progress, step) = self.next_node_upload(tree, nodes, plan.node_progress);
            match step {
                NodeUploadStep::ReuploadMip(k) => {
                    next.node_progress = progress + 1;
                    return (next, UploadAction::WriteMip(k));
                },
                NodeUploadStep::UploadNode(q) => {
                    next.node_progress = progress + 1;
                    next.node_budget = plan.node_budget - 1;
                    return (next, UploadAction::WriteNode(q));
                },
                NodeUploadStep::Done => {
                    next.node_progress = progress;
                },
            }
        }
        next.node_budget = 0;
        if plan.brick_budget == 0 || plan.brick_progress >= bricks.len() {
            return (next, UploadAction::Finished);
        }
        match self.next_brick_upload(bricks, plan.brick_progress) {
            None => (next, UploadAction::Finished),
            Some(i) => {
                if i == plan.brick_progress {
                    next.brick_progress = plan.brick_progress + 1;
                }
                next.brick_budget = plan.brick_budget - 1;
                (next, UploadAction::WriteBrick(i))
            },
        }
    }
}

/// The range of a view at one MIP level, as far as a view's queues are built from it: its
/// lower corner and its edge length
pub open spec fn view_overlaps(bl: V3c<u32>, d: u32, pos: V3c<u32>, size: V3c<u32>) -> bool {
    !(bl.x + d <= pos.x || pos.x + size.x <= bl.x || bl.y + d <= pos.y || pos.y + size.y <= bl.y
        || bl.z + d <= pos.z || pos.z + size.z <= bl.z)
}

/// The parts of the view's range at a node's children, as `execute_for_relevant_sectants`
/// lists them
pub open spec fn relevant_updates(bounds: Cube, bl: V3c<u32>, d: u32) -> Seq<SectantUpdate> {
    if update_beyond(bounds, bl) {
        Seq::empty()
    } else {
        let (start, extent) = clipped_update(bounds, bl, d);
        present_updates(probes(bounds, start, extent))
    }
}

/// The brick of the owner is not in the cache yet
pub open spec fn brick_not_cached(bricks: Map<usize, u64>, o: BrickOwnedBy) -> bool {
    slot_of(bricks, owner_code(o)) is None
}

/// Nothing to upload
pub open spec fn no_uploads() -> (Seq<NodeUploadRequest>, Seq<(BrickOwnedBy, V3c<u32>)>) {
    (Seq::empty(), Seq::empty())
}

/// The nodes and bricks a view uploads below the node `key` covering `bounds`, at MIP level
/// `level`, the view's range at each level being given by `levels`: nothing below the lowest
/// level `min_level`. A uniform leaf gives its parted brick where the range overlaps the node;
/// a leaf gives each parted brick whose part of the range is not empty; an internal node gives
/// each child node whose part of the range is not empty, followed by what that child gives one
/// level lower. Bricks already in the cache (`bricks`) are left out; each brick comes with the
/// lower corner of the cube it covers.
pub open spec fn view_walk<T>(tree: &BoxTree<T>, bricks: Map<usize, u64>, levels: Seq<(V3c<u32>, u32)>, min_level: int, key: int, bounds: Cube, level: int) -> (Seq<NodeUploadRequest>, Seq<(BrickOwnedBy, V3c<u32>)>)
    decreases level, 1int, 0int,
{
    if level < min_level || level < 1 || level >= levels.len() || !(0 <= key < tree.node_count()) || !cube_fits(bounds) {
        no_uploads()
    } else {
        let (bl, d) = levels[level];
        let o = BrickOwnedBy::NodeAsChild(key as u32, 0);
        if tree.node_is_uniform_leaf(key) {
            if requested_brick(tree, o) is Parted && view_overlaps(bl, d, bounds.min_position,
                V3c { x: bounds.size, y: bounds.size, z: bounds.size }) && brick_not_cached(bricks, o) {
                (Seq::empty(), seq![(o, bounds.min_position)])
            } else {
                no_uploads()
            }
        } else if (tree.node_is_leaf(key) || tree.node_is_internal(key)) && cube_splittable(bounds) {
            view_walk_parts(tree, bricks, levels, min_level, key, level, relevant_updates(bounds, bl, d), 0)
        } else {
            no_uploads()
        }
    }
}

/// What `view_walk` gives for the parts `us` of the view's range, from the `i`th on, below the
/// node `key` at MIP level `level`
pub open spec fn view_walk_parts<T>(tree: &BoxTree<T>, bricks: Map<usize, u64>, levels: Seq<(V3c<u32>, u32)>, min_level: int, key: int, level: int, us: Seq<SectantUpdate>, i: int) -> (Seq<NodeUploadRequest>, Seq<(BrickOwnedBy, V3c<u32>)>)
    decreases level, 0int, us.len() - i,
{
    if i < 0 || i >= us.len() || level < 1 || level >= levels.len() {
        no_uploads()
    } else {
        let u = us[i];
        let s = u.target_child_sectant;
        let (bl, d) = levels[level];
        let rest = view_walk_parts(tree, bricks, levels, min_level, key, level, us, i + 1);
        let here = if s >= 64 || !view_overlaps(bl, d, u.position_in_target, u.update_size_in_target) {
            no_uploads()
        } else if tree.node_is_leaf(key) {
            let o = BrickOwnedBy::NodeAsChild(key as u32, s);
            if requested_brick(tree, o) is Parted && brick_not_cached(bricks, o) {
                (Seq::empty(), seq![(o, u.target_bounds.min_position)])
            } else {
                no_uploads()
            }
        } else {
            let ck = tree.child_key(key, s as int);
            if ck != EMPTY_MARKER as int && 0 <= ck < tree.node_count() {
                let sub = view_walk(tree, bricks, levels, min_level, ck, u.target_bounds, level - 1);
                (seq![NodeUploadRequest { node_key: ck as usize, parent_key: key as usize, sectant: s }] + sub.0, sub.1)
            } else {
                no_uploads()
            }
        };
        (here.0 + rest.0, here.1 + rest.1)
    }
}

/// The brick comes with the lower corner of the cube it covers: the child cube of its leaf's
/// cube at its sectant
pub open spec fn brick_at_its_corner<T>(tree: &BoxTree<T>, e: (BrickOwnedBy, V3c<u32>)) -> bool {
    match e.0 {
        BrickOwnedBy::NodeAsChild(k, s) => s < 64 && k < tree.node_count()
            && e.1 == child_cube(tree.node_cube(k as int), s as int).min_position,
        _ => false,
    }
}

/// Every brick of the queue is a parted brick of the tree not in the cache yet (`bricks`)
pub open spec fn bricks_parted_uncached<T>(tree: &BoxTree<T>, bricks: Map<usize, u64>, bs: Seq<(BrickOwnedBy, V3c<u32>)>) -> bool {
    forall|j: int| 0 <= j < bs.len() ==> requested_brick(tree, (#[trigger] bs[j]).0) is Parted
        && brick_not_cached(bricks, bs[j].0)
}

/// Every brick of the queue comes with the lower corner of the cube it covers
pub open spec fn bricks_at_their_corners<T>(tree: &BoxTree<T>, bs: Seq<(BrickOwnedBy, V3c<u32>)>) -> bool {
    forall|j: int| 0 <= j < bs.len() ==> brick_at_its_corner(tree, #[trigger] bs[j])
}

/// The request names a child node of the tree below its parent at its sectant
pub open spec fn request_linked<T>(tree: &BoxTree<T>, q: NodeUploadRequest) -> bool {
    &&& q.sectant < 64
    &&& q.parent_key < tree.node_count()
    &&& tree.child_key(q.parent_key as int, q.sectant as int) == q.node_key as int
}

/// Every request of the queue names a child node of the tree below its parent at its sectant
pub open spec fn requests_linked<T>(tree: &BoxTree<T>, rs: Seq<NodeUploadRequest>) -> bool {
    forall|j: int| 0 <= j < rs.len() ==> request_linked(tree, #[trigger] rs[j])
}

proof fn lemma_linked_concat<T>(tree: &BoxTree<T>, a: Seq<NodeUploadRequest>, b: Seq<NodeUploadRequest>)
    requires
        requests_linked(tree, a),
        requests_linked(tree, b),
    ensures
        requests_linked(tree, a + b),
{
    assert forall|j: int| 0 <= j < (a + b).len() implies request_linked(tree, #[trigger] (a + b)[j]) by {
        if j < a.len() {
            assert((a + b)[j] == a[j]);
        } else {
            assert((a + b)[j] == b[j - a.len()]);
        }
    }
}

proof fn lemma_corners_concat<T>(tree: &BoxTree<T>, a: Seq<(BrickOwnedBy, V3c<u32>)>, b: Seq<(BrickOwnedBy, V3c<u32>)>)
    requires
        bricks_at_their_corners(tree, a),
        bricks_at_their_corners(tree, b),
    ensures
        bricks_at_their_corners(tree, a + b),
        forall|bricks: Map<usize, u64>| bricks_parted_uncached(tree, bricks, a) && bricks_parted_uncached(tree, bricks, b)
            ==> #[trigger] bricks_parted_uncached(tree, bricks, a + b),
{
    assert forall|bricks: Map<usize, u64>| bricks_parted_uncached(tree, bricks, a) && bricks_parted_uncached(tree, bricks, b)
        implies #[trigger] bricks_parted_uncached(tree, bricks, a + b) by {
        assert forall|j: int| 0 <= j < (a + b).len() implies requested_brick(tree, (#[trigger] (a + b)[j]).0) is Parted
            && brick_not_cached(bricks, (a + b)[j].0) by {
            if j < a.len() {
                assert((a + b)[j] == a[j]);
            } else {
                assert((a + b)[j] == b[j - a.len()]);
            }
        }
    }
    assert forall|j: int| 0 <= j < (a + b).len() implies brick_at_its_corner(tree, #[trigger] (a + b)[j]) by {
        if j < a.len() {
            assert((a + b)[j] == a[j]);
        } else {
            assert((a + b)[j] == b[j - a.len()]);
        }
    }
}

/// Walking a view below a node that is given its own cube queues every brick with the lower
/// corner of the cube that brick covers: for a brick owned by sectant `s` of leaf `k`, the
/// corner of the child cube of `k`'s cube at `s`
pub proof fn lemma_view_walk_corners<T>(tree: &BoxTree<T>, bricks: Map<usize, u64>, levels: Seq<(V3c<u32>, u32)>, min_level: int, key: int, level: int)
    requires
        tree.wf(),
    ensures
        bricks_at_their_corners(tree, view_walk(tree, bricks, levels, min_level, key, tree.node_cube(key), level).1),
        bricks_parted_uncached(tree, bricks, view_walk(tree, bricks, levels, min_level, key, tree.node_cube(key), level).1),
        requests_linked(tree, view_walk(tree, bricks, levels, min_level, key, tree.node_cube(key), level).0),
    decreases level, 1int, 0int,
{
    let bounds = tree.node_cube(key);
    if level < min_level || level < 1 || level >= levels.len() || !(0 <= key < tree.node_count()) || !cube_fits(bounds) {
    } else {
        let (bl, d) = levels[level];
        let o = BrickOwnedBy::NodeAsChild(key as u32, 0);
        tree.lemma_wf_bounds();
        if tree.node_is_uniform_leaf(key) {
            let r = view_walk(tree, bricks, levels, min_level, key, bounds, level).1;
            if r.len() > 0 {
                assert(r[0] == (o, bounds.min_position));
                assert(child_cube(bounds, 0).min_position == bounds.min_position);
            }
        } else if (tree.node_is_leaf(key) || tree.node_is_internal(key)) && cube_splittable(bounds) {
            let us = relevant_updates(bounds, bl, d);
            if !update_beyond(bounds, bl) {
                let (start, extent) = clipped_update(bounds, bl, d);
                lemma_updates_in_children(bounds, start, extent);
            }
            lemma_view_walk_parts_corners(tree, bricks, levels, min_level, key, level, us, 0);
        }
    }
}

proof fn lemma_view_walk_parts_corners<T>(tree: &BoxTree<T>, bricks: Map<usize, u64>, levels: Seq<(V3c<u32>, u32)>, min_level: int, key: int, level: int, us: Seq<SectantUpdate>, i: int)
    requires
        tree.wf(),
        0 <= key < tree.node_count(),
        forall|j: int| 0 <= j < us.len() ==> update_in_child(tree.node_cube(key), #[trigger] us[j]),
    ensures
        bricks_at_their_corners(tree, view_walk_parts(tree, bricks, levels, min_level, key, level, us, i).1),
        bricks_parted_uncached(tree, bricks, view_walk_parts(tree, bricks, levels, min_level, key, level, us, i).1),
        requests_linked(tree, view_walk_parts(tree, bricks, levels, min_level, key, level, us, i).0),
    decreases level, 0int, us.len() - i,
{
    if i < 0 || i >= us.len() || level < 1 || level >= levels.len() {
    } else {
        let u = us[i];
        let s = u.target_child_sectant;
        let (bl, d) = levels[level];
        tree.lemma_wf_bounds();
        lemma_view_walk_parts_corners(tree, bricks, levels, min_level, key, level, us, i + 1);
        let rest = view_walk_parts(tree, bricks, levels, min_level, key, level, us, i + 1);
        assert(update_in_child(tree.node_cube(key), us[i]));
        let here_b: Seq<(BrickOwnedBy, V3c<u32>)> = if s >= 64 || !view_overlaps(bl, d, u.position_in_target, u.update_size_in_target) {
            Seq::empty()
        } else if tree.node_is_leaf(key) {
            let o = BrickOwnedBy::NodeAsChild(key as u32, s);
            if requested_brick(tree, o) is Parted && brick_not_cached(bricks, o) {
                seq![(o, u.target_bounds.min_position)]
            } else {
                Seq::empty()
            }
        } else {
            let ck = tree.child_key(key, s as int);
            if ck != EMPTY_MARKER as int && 0 <= ck < tree.node_count() {
                tree.lemma_node_cubes(key, s as int);
                lemma_view_walk_corners(tree, bricks, levels, min_level, ck, level - 1);
                view_walk(tree, bricks, levels, min_level, ck, u.target_bounds, level - 1).1
            } else {
                Seq::empty()
            }
        };
        if here_b.len() > 0 && s < 64 && tree.node_is_leaf(key) {
            assert(brick_at_its_corner(tree, here_b[0]));
        }
        assert(view_walk_parts(tree, bricks, levels, min_level, key, level, us, i).1 == here_b + rest.1);
        lemma_corners_concat(tree, here_b, rest.1);
        let here_n: Seq<NodeUploadRequest> = if s >= 64 || !view_overlaps(bl, d, u.position_in_target, u.update_size_in_target)
            || tree.node_is_leaf(key) {
            Seq::empty()
        } else {
            let ck = tree.child_key(key, s as int);
            if ck != EMPTY_MARKER as int && 0 <= ck < tree.node_count() {
                let q = NodeUploadRequest { node_key: ck as usize, parent_key: key as usize, sectant: s };
                let sub = view_walk(tree, bricks, levels, min_level, ck, u.target_bounds, level - 1).0;
                assert(request_linked(tree, q));
                assert forall|j: int| 0 <= j < seq![q].len() implies request_linked(tree, #[trigger] seq![q][j]) by {}
                lemma_linked_concat(tree, seq![q], sub);
                seq![q] + sub
            } else {
                Seq::empty()
            }
        };
        assert(view_walk_parts(tree, bricks, levels, min_level, key, level, us, i).0 == here_n + rest.0);
        lemma_linked_concat(tree, here_n, rest.0);
    }
}

/// The range of a view overlaps the part of a node
fn overlaps_exec(bl: V3c<u32>, d: u32, pos: V3c<u32>, size: V3c<u32>) -> (r: bool)
    ensures
        r == view_overlaps(bl, d, pos, size),
{
    !((bl.x as u64) + (d as u64) <= pos.x as u64 || (pos.x as u64) + (size.x as u64) <= bl.x as u64
        || (bl.y as u64) + (d as u64) <= pos.y as u64 || (pos.y as u64) + (size.y as u64) <= bl.y as u64
        || (bl.z as u64) + (d as u64) <= pos.z as u64 || (pos.z as u64) + (size.z as u64) <= bl.z as u64)
}

/// The cube fits into the u32 coordinate range
fn fits_exec(c: Cube) -> (r: bool)
    ensures
        r == cube_fits(c),
{
    (c.min_position.x as u64) + (c.size as u64) <= 0x1_0000_0000u64
        && (c.min_position.y as u64) + (c.size as u64) <= 0x1_0000_0000u64
        && (c.min_position.z as u64) + (c.size as u64) <= 0x1_0000_0000u64
}

impl BoxTreeGPUDataHandler {
    /// The brick of the owner is not in the cache yet
    fn brick_not_cached_exec(&self, o: BrickOwnedBy) -> (r: bool)
        requires
            self.wf(),
        ensures
            r == brick_not_cached(self.brick_slots(), o),
    {
        self.slot_for(brick_owner_code(o)).is_none()
    }

    /// Appends to `nodes` and `bricks` what a view uploads below the node `key` covering
    /// `bounds`, at MIP level `level`, as `view_walk` says
    pub fn add_children_to_upload_queue<T>(&self, tree: &BoxTree<T>, levels: &Vec<(V3c<u32>, u32)>, min_level: usize, key: usize, bounds: Cube, level: usize, nodes: &mut Vec<NodeUploadRequest>, bricks: &mut Vec<(BrickOwnedBy, V3c<u32>)>)
        requires
            self.wf(),
            tree.wf(),
        ensures
            final(nodes)@ == old(nodes)@ + view_walk(tree, self.brick_slots(), levels@, min_level as int, key as int, bounds, level as int).0,
            final(bricks)@ == old(bricks)@ + view_walk(tree, self.brick_slots(), levels@, min_level as int, key as int, bounds, level as int).1,
        decreases level,
    {
        proof {
            tree.lemma_wf_lens();
        }
        if level < min_level || level < 1 || level >= levels.len() || key >= tree.nodes.len() || !fits_exec(bounds) {
            proof {
                assert(nodes@ + Seq::<NodeUploadRequest>::empty() =~= nodes@);
                assert(bricks@ + Seq::<(BrickOwnedBy, V3c<u32>)>::empty() =~= bricks@);
            }
            return;
        }
        proof {
            tree.lemma_kinds_read_fields(key as int);
            tree.lemma_leaf_len(key as int);
            reveal_with_fuel(view_walk, 1);
        }
        let (bl, d) = levels[level];
        let whole = Ghost(view_walk(tree, self.brick_slots(), levels@, min_level as int, key as int, bounds, level as int));
        match &tree.nodes[key] {
            NodeContent::UniformLeaf(b) => {
                let o = BrickOwnedBy::NodeAsChild(key as u32, 0);
                let parted = match b {
                    BrickData::Parted(_) => true,
                    _ => false,
                };
                assert(requested_brick(tree, o) == *b);
                if parted && overlaps_exec(bl, d, bounds.min_position, V3c { x: bounds.size, y: bounds.size, z: bounds.size })
                    && self.brick_not_cached_exec(o) {
                    bricks.push((o, bounds.min_position));
                    proof {
                        assert(nodes@ + Seq::<NodeUploadRequest>::empty() =~= nodes@);
                    }
                } else {
                    proof {
                        assert(nodes@ + Seq::<NodeUploadRequest>::empty() =~= nodes@);
                        assert(bricks@ + Seq::<(BrickOwnedBy, V3c<u32>)>::empty() =~= bricks@);
                    }
                }
                return;
            },
            NodeContent::Nothing => {
                proof {
                    assert(nodes@ + Seq::<NodeUploadRequest>::empty() =~= nodes@);
                    assert(bricks@ + Seq::<(BrickOwnedBy, V3c<u32>)>::empty() =~= bricks@);
                }
                return;
            },
            _ => {},
        }
        if !(bounds.size >= 4 && bounds.size % 4 == 0) {
            proof {
                assert(nodes@ + Seq::<NodeUploadRequest>::empty() =~= nodes@);
                assert(bricks@ + Seq::<(BrickOwnedBy, V3c<u32>)>::empty() =~= bricks@);
            }
            return;
        }
        let leaf = match &tree.nodes[key] {
            NodeContent::Leaf(_) => true,
            _ => false,
        };
        let (us, _) = execute_for_relevant_sectants(&bounds, &bl, d);
        let ghost start_nodes = nodes@;
        let ghost start_bricks = bricks@;
        proof {
            assert(us@ == relevant_updates(bounds, bl, d));
        }
        let mut i: usize = 0;
        while i < us.len()
            invariant
                self.wf(),
                tree.wf(),
                tree.node_count() == tree.nodes@.len(),
                tree.nodes@.len() < EMPTY_MARKER,
                key < tree.nodes@.len(),
                1 <= level < levels@.len(),
                (bl, d) == levels@[level as int],
                leaf == tree.node_is_leaf(key as int),
                leaf ==> (tree.nodes@[key as int] matches NodeContent::Leaf(v) && v@.len() == 64),
                leaf == (tree.nodes@[key as int] is Leaf),
                i <= us@.len(),
                whole@ == view_walk_parts(tree, self.brick_slots(), levels@, min_level as int, key as int, level as int, us@, 0),
                nodes@ + view_walk_parts(tree, self.brick_slots(), levels@, min_level as int, key as int, level as int, us@, i as int).0
                    == start_nodes + whole@.0,
                bricks@ + view_walk_parts(tree, self.brick_slots(), levels@, min_level as int, key as int, level as int, us@, i as int).1
                    == start_bricks + whole@.1,
            decreases us.len() - i,
        {
            let u = us[i];
            let s = u.target_child_sectant;
            let ghost rest = view_walk_parts(tree, self.brick_slots(), levels@, min_level as int, key as int, level as int, us@, i as int + 1);
            let ghost nodes_before = nodes@;
            let ghost bricks_before = bricks@;
            if s < 64 && overlaps_exec(bl, d, u.position_in_target, u.update_size_in_target) {
                if leaf {
                    let o = BrickOwnedBy::NodeAsChild(key as u32, s);
                    let parted = match &tree.nodes[key] {
                        NodeContent::Leaf(v) => match &v[s as usize] {
                            BrickData::Parted(_) => true,
                            _ => false,
                        },
                        _ => false,
                    };
                    proof {
                        assert(parted == (requested_brick(tree, o) is Parted));
                    }
                    if parted && self.brick_not_cached_exec(o) {
                        bricks.push((o, u.target_bounds.min_position));
                    }
                } else {
                    let ck = tree.child(key, s);
                    if ck != EMPTY_MARKER as usize {
                        nodes.push(NodeUploadRequest { node_key: ck, parent_key: key, sectant: s });
                        self.add_children_to_upload_queue(tree, levels, min_level, ck, u.target_bounds, level - 1, nodes, bricks);
                    }
                }
            }
            proof {
                let here_n = nodes@.subrange(nodes_before.len() as int, nodes@.len() as int);
                assert(nodes@ =~= nodes_before + here_n);
                assert(bricks@ =~= bricks_before + bricks@.subrange(bricks_before.len() as int, bricks@.len() as int));
                assert(view_walk_parts(tree, self.brick_slots(), levels@, min_level as int, key as int, level as int, us@, i as int).0
                    =~= here_n + rest.0);
                assert(view_walk_parts(tree, self.brick_slots(), levels@, min_level as int, key as int, level as int, us@, i as int).1
                    =~= bricks@.subrange(bricks_before.len() as int, bricks@.len() as int) + rest.1);
                assert(nodes@ + rest.0 =~= nodes_before + (here_n + rest.0));
                assert(bricks@ + rest.1 =~= bricks_before + (bricks@.subrange(bricks_before.len() as int, bricks@.len() as int) + rest.1));
            }
            i += 1;
        }
        proof {
            assert(nodes@ + Seq::<NodeUploadRequest>::empty() =~= nodes@);
            assert(bricks@ + Seq::<(BrickOwnedBy, V3c<u32>)>::empty() =~= bricks@);
        }
    }
}

/// The node keys of the requests
pub open spec fn request_keys(rs: Seq<NodeUploadRequest>) -> Set<usize>
    decreases rs.len(),
{
    if rs.len() == 0 {
        Set::empty()
    } else {
        request_keys(rs.drop_last()).insert(rs.last().node_key)
    }
}

/// The node a view's walk starts below, with the cube it covers and its MIP level: the last
/// node on the path to the smallest node covering the view below which the path goes on, or
/// the root at the top level where the path holds the root only
pub open spec fn walk_start<T>(tree: &BoxTree<T>, bl: V3c<u32>, tr: V3c<u32>, center: V3c<u32>, view_distance: u32, max_level: int) -> (int, Cube, int) {
    match center_parent_from(tree, 0, tree.root_cube(), 0, bl, tr, center, view_distance) {
        Some((k, b, d)) => (k, b, max_level - d),
        None => (0, tree.root_cube(), max_level),
    }
}

impl BoxTreeGPUDataHandler {
    /// Rebuilds what a view should hold: the node queue is the path from the root to the
    /// smallest node covering the view, followed by what `view_walk` gives below the node of
    /// `walk_start`; the brick queue is what that walk gives. The nodes of the node queue are
    /// the ones the view needs from now on. The view is given by its corners and center, clamped
    /// into the tree and rounded down, its distance rounded down, and its range at each MIP
    /// level; `max_mip_level` is the level of the root, `min_mip_level` the lowest level walked.
    #[verifier::rlimit(40)]
    #[verifier::spinoff_prover]
    pub fn rebuild<T>(&mut self, tree: &BoxTree<T>, view_bl: V3c<u32>, view_tr: V3c<u32>, view_center: V3c<u32>, view_distance: u32, levels: &Vec<(V3c<u32>, u32)>, max_mip_level: usize, min_mip_level: usize) -> (r: (Vec<NodeUploadRequest>, Vec<(BrickOwnedBy, V3c<u32>)>))
        requires
            old(self).wf(),
            tree.wf(),
        ensures
            final(self).wf(),
            final(self).node_slots() == old(self).node_slots(),
            final(self).links() == old(self).links(),
            final(self).ocbits_words() == old(self).ocbits_words(),
            final(self).metadata_words() == old(self).metadata_words(),
            final(self).victim_node() == old(self).victim_node(),
            ({
                let start = walk_start(tree, view_bl, view_tr, view_center, view_distance, max_mip_level as int);
                let walk = view_walk(tree, old(self).brick_slots(), levels@, min_mip_level as int, start.0, start.1, start.2);
                &&& r.0@ == center_path_from(tree, root_request(), tree.root_cube(), view_bl, view_tr, view_center, view_distance) + walk.0
                &&& r.1@ == walk.1
                &&& final(self).wanted() == request_keys(r.0@)
            }),
            bricks_at_their_corners(tree, r.1@),
            bricks_parted_uncached(tree, old(self).brick_slots(), r.1@),
            r.0@.len() >= 1,
            r.0@[0] == root_request(),
            requests_linked(tree, r.0@.subrange(1, r.0@.len() as int)),
    {
        proof {
            tree.lemma_node_cubes(0, 0);
            tree.lemma_wf_bounds();
            lemma_center_path_linked(tree, root_request(), tree.root_cube(), view_bl, view_tr, view_center, view_distance);
            lemma_center_parent_cube(tree, 0, 0, view_bl, view_tr, view_center, view_distance);
            let st = walk_start(tree, view_bl, view_tr, view_center, view_distance, max_mip_level as int);
            lemma_view_walk_corners(tree, self.brick_slots(), levels@, min_mip_level as int, st.0, st.2);
        }
        let (mut nodes, parent) = center_node_path(tree, view_bl, view_tr, view_center, view_distance);
        let ghost path = nodes@;
        let ghost start = walk_start(tree, view_bl, view_tr, view_center, view_distance, max_mip_level as int);
        let (key, bounds, level) = match parent {
            Some((k, b, d)) => (k, b, if d <= max_mip_level { max_mip_level - d } else { 0 }),
            None => (0, Cube::root_bounds(tree.get_size()), max_mip_level),
        };
        proof {
            if start.2 < 1 {
                assert(view_walk(tree, self.brick_slots(), levels@, min_mip_level as int, start.0, start.1, start.2) == no_uploads());
                assert(view_walk(tree, self.brick_slots(), levels@, min_mip_level as int, key as int, bounds, level as int) == no_uploads());
            }
        }
        let mut bricks: Vec<(BrickOwnedBy, V3c<u32>)> = Vec::new();
        self.add_children_to_upload_queue(tree, levels, min_mip_level, key, bounds, level, &mut nodes, &mut bricks);
        proof {
            assert(bricks@ =~= Seq::<(BrickOwnedBy, V3c<u32>)>::empty() + bricks@);
        }
        let ghost before = *self;
        self.upload_targets.nodes_to_see.clear();
        proof {
            assert forall|i: usize| #[trigger] self.parents().contains_key(i)
                implies self.parents()[i].0 < self.nodes_in_view && self.parents()[i].1 < 64 by {
                assert(before.parents().contains_key(i));
            }
            assert forall|k: usize| #[trigger] self.node_slots().contains_key(k)
                implies self.node_slots()[k] < self.nodes_in_view by {
                assert(before.node_slots().contains_key(k));
            }
            assert(self.wanted() =~= request_keys(nodes@.take(0)));
        }
        let mut i: usize = 0;
        while i < nodes.len()
            invariant
                self.wf(),
                i <= nodes@.len(),
                self.node_slots() == before.node_slots(),
                self.links() == before.links(),
                self.ocbits_words() == before.ocbits_words(),
                self.metadata_words() == before.metadata_words(),
                self.victim_node() == before.victim_node(),
                self.wanted() == request_keys(nodes@.take(i as int)),
            decreases nodes.len() - i,
        {
            self.see_node(nodes[i].node_key);
            proof {
                assert(nodes@.take(i as int + 1).drop_last() =~= nodes@.take(i as int));
            }
            i += 1;
        }
        proof {
            assert(nodes@.take(nodes@.len() as int) =~= nodes@);
            let st = walk_start(tree, view_bl, view_tr, view_center, view_distance, max_mip_level as int);
            let path = center_path_from(tree, root_request(), tree.root_cube(), view_bl, view_tr, view_center, view_distance);
            let walk = view_walk(tree, before.brick_slots(), levels@, min_mip_level as int, st.0, st.1, st.2).0;
            assert(requests_linked(tree, walk));
            assert(path.subrange(1, path.len() as int) + walk =~= nodes@.subrange(1, nodes@.len() as int));
            assert forall|j: int| 0 <= j < path.subrange(1, path.len() as int).len()
                implies request_linked(tree, #[trigger] path.subrange(1, path.len() as int)[j]) by {
                assert(path.subrange(1, path.len() as int)[j] == path[j + 1]);
            }
            lemma_linked_concat(tree, path.subrange(1, path.len() as int), walk);
        }
        (nodes, bricks)
    }
}

} // verus!
