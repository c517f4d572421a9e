//! Trait bounds collected into single traits, to simplify generic constraints.
use vstd::prelude::*;
use std::hash::Hash;
use crate::boxtree::types::VoxelData;

verus! {

/// Everything the container asks of the user data stored in voxels
pub trait UnifiedVoxelData: Default + Eq + Clone + Hash + VoxelData + Send + Sync + 'static + UnifiedVoxelDataExt {

}

/// Extra requirements of the user data, for the optional features of the container
pub trait UnifiedVoxelDataExt {

}

impl<T> UnifiedVoxelDataExt for T {

}

impl<T> UnifiedVoxelData for T where
    T: Default + Eq + Clone + Hash + VoxelData + Send + Sync + 'static + UnifiedVoxelDataExt,
 {

}

} // verus!
