//! What the renderer is handed of a tree.
use vstd::prelude::*;
use crate::boxtree::BoxTree;

pub mod cache;
pub mod upload_queue;

pub use crate::boxtree::render_data::{boxtree_properties, inject_node_properties, node_type_bits, properties_word};

verus! {

/// Holder of the tree the renderer displays
pub struct BoxTreeGPUHost<T = u32> {
    pub tree: BoxTree<T>,
}

} // verus!
