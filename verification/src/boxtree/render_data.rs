//! Descriptors of a tree as the renderer reads them.
use vstd::prelude::*;
use crate::boxtree::BoxTree;
use crate::boxtree::types::NodeContent;

verus! {

/// The properties word of a tree: bits 0..16 hold the brick dimension,
/// bit 16 is set when MIP maps are enabled
pub open spec fn properties_word(brick_dim: u32, mips_enabled: bool) -> u32 {
    (brick_dim & 0x0000FFFF) | ((if mips_enabled { 1u32 } else { 0u32 }) << 16u32)
}

/// The properties word of the given tree, as the renderer reads it
pub fn boxtree_properties<T>(tree: &BoxTree<T>) -> (r: u32)
    ensures
        r == properties_word(tree.spec_brick_dim(), tree.strategy().spec_enabled()),
{
    let enabled: u32 = if tree.mip_map_strategy.is_enabled() { 1 } else { 0 };
    (tree.brick_dim & 0x0000FFFF) | (enabled << 16u32)
}

/// The descriptor of a tree the renderer reads: the edge length of the cube the tree covers
/// and its properties word. The ambient light the renderer keeps beside it is given in
/// floating point and is not part of it.
#[derive(Debug, Clone, Copy, PartialEq, Eq)]
pub struct BoxTreeMetaData {
    pub boxtree_size: u32,
    pub tree_properties: u32,
}

impl BoxTreeMetaData {
    /// The descriptor of the given tree
    pub fn of_tree<T>(tree: &BoxTree<T>) -> (r: Self)
        ensures
            r.boxtree_size == tree.spec_size(),
            r.tree_properties == properties_word(tree.spec_brick_dim(), tree.strategy().spec_enabled()),
    {
        BoxTreeMetaData { boxtree_size: tree.get_size(), tree_properties: boxtree_properties(tree) }
    }
}

/// The metadata word after the type bits of one node were written into it: bit `b` tells
/// whether the node is a leaf of any kind, bit `8 + b` whether it is a uniform leaf; every
/// other bit is kept
pub open spec fn node_type_bits(word: u32, b: u32, leaf: bool, uniform: bool) -> u32 {
    (word & !((1u32 << b) | (1u32 << (8u32 + b)))) | ((if leaf { 1u32 } else { 0u32 }) << b)
        | ((if uniform { 1u32 } else { 0u32 }) << (8u32 + b))
}

/// Writing the type bits of node `b` of a metadata word sets bit `b` exactly for a leaf of
/// either kind and bit `8 + b` exactly for a uniform leaf, and keeps every other bit
pub proof fn lemma_node_type_bits(word: u32, b: u32, leaf: bool, uniform: bool)
    requires
        b < 8,
    ensures
        (node_type_bits(word, b, leaf, uniform) >> b) & 1u32 == (if leaf { 1u32 } else { 0u32 }),
        (node_type_bits(word, b, leaf, uniform) >> (8u32 + b)) & 1u32 == (if uniform { 1u32 } else { 0u32 }),
        forall|j: u32| j < 32 && j != b && j != 8 + b
            ==> #[trigger] ((node_type_bits(word, b, leaf, uniform) >> j) & 1u32) == (word >> j) & 1u32,
{
    let r = node_type_bits(word, b, leaf, uniform);
    let l: u32 = if leaf { 1u32 } else { 0u32 };
    let u: u32 = if uniform { 1u32 } else { 0u32 };
    assert(r == (word & !((1u32 << b) | (1u32 << (8u32 + b)))) | (l << b) | (u << (8u32 + b)));
    assert((r >> b) & 1u32 == l && (r >> (8u32 + b)) & 1u32 == u) by (bit_vector)
        requires
            b < 8,
            l <= 1,
            u <= 1,
            r == (word & !((1u32 << b) | (1u32 << (8u32 + b)))) | (l << b) | (u << (8u32 + b)),
    ;
    assert forall|j: u32| j < 32 && j != b && j != 8 + b implies #[trigger] ((r >> j) & 1u32) == (word >> j) & 1u32 by {
        assert(((r >> j) & 1u32) == (word >> j) & 1u32) by (bit_vector)
            requires
                b < 8,
                j < 32,
                j != b,
                j != 8 + b,
                l <= 1,
                u <= 1,
                r == (word & !((1u32 << b) | (1u32 << (8u32 + b)))) | (l << b) | (u << (8u32 + b)),
        ;
    }
}

/// Writes the type of a node into the metadata array: every word describes 8 nodes
/// * `node_index` - the index of the node in the metadata array
/// * `node_key` - the key of the node in the tree
pub fn inject_node_properties<T>(meta_array: &mut Vec<u32>, node_index: usize, tree: &BoxTree<T>, node_key: usize)
    requires
        tree.wf(),
        node_key < tree.node_count(),
        node_index / 8 < old(meta_array)@.len(),
    ensures
        final(meta_array)@.len() == old(meta_array)@.len(),
        forall|i: int| 0 <= i < old(meta_array)@.len() && i != node_index / 8
            ==> #[trigger] final(meta_array)@[i] == old(meta_array)@[i],
        final(meta_array)@[(node_index / 8) as int] == node_type_bits(
            old(meta_array)@[(node_index / 8) as int],
            (node_index % 8) as u32,
            tree.node_is_leaf(node_key as int) || tree.node_is_uniform_leaf(node_key as int),
            tree.node_is_uniform_leaf(node_key as int),
        ),
        (final(meta_array)@[(node_index / 8) as int] >> ((node_index % 8) as u32)) & 1u32
            == (if tree.node_is_leaf(node_key as int) || tree.node_is_uniform_leaf(node_key as int) { 1u32 } else { 0u32 }),
        (final(meta_array)@[(node_index / 8) as int] >> (8u32 + (node_index % 8) as u32)) & 1u32
            == (if tree.node_is_uniform_leaf(node_key as int) { 1u32 } else { 0u32 }),
{
    proof {
        lemma_node_type_bits(
            meta_array@[(node_index / 8) as int],
            (node_index % 8) as u32,
            tree.node_is_leaf(node_key as int) || tree.node_is_uniform_leaf(node_key as int),
            tree.node_is_uniform_leaf(node_key as int),
        );
    }
    let w = node_index / 8;
    let b = (node_index % 8) as u32;
    let old_word = meta_array[w];
    let word: u32 = match &tree.nodes[node_key] {
        NodeContent::Internal(_) | NodeContent::Nothing => {
            let v = old_word & !(1u32 << b) & !(1u32 << (8 + b));
            assert(v == node_type_bits(old_word, b, false, false)) by (bit_vector)
                requires
                    b < 8,
                    v == old_word & !(1u32 << b) & !(1u32 << (8 + b)),
            ;
            v
        },
        NodeContent::Leaf(_) => {
            let v = (old_word | (1u32 << b)) & !(1u32 << (8 + b));
            assert(v == node_type_bits(old_word, b, true, false)) by (bit_vector)
                requires
                    b < 8,
                    v == (old_word | (1u32 << b)) & !(1u32 << (8 + b)),
            ;
            v
        },
        NodeContent::UniformLeaf(_) => {
            let v = old_word | (1u32 << b) | (1u32 << (8 + b));
            assert(v == node_type_bits(old_word, b, true, true)) by (bit_vector)
                requires
                    b < 8,
                    v == old_word | (1u32 << b) | (1u32 << (8 + b)),
            ;
            v
        },
    };
    meta_array.set(w, word);
}

} // verus!
