//! The voxel payload an entity may carry: a sparse octree of voxel chunks,
//! a nested matter tree for in-body collisions, and an orientation. The core
//! owns these values without interpreting the voxel data.

use vstd::prelude::*;
use crate::geometry::Mat3;
use crate::matter_tree::MatterTree;

verus! {

pub const CHUNK_SIZE: usize = 32;

pub const NB_VOXELS_PER_CHUNK: usize = CHUNK_SIZE * CHUNK_SIZE * CHUNK_SIZE;

#[derive(Clone, Copy, PartialEq, Eq, Structural, Debug)]
pub enum VoxelType {
    Empty,
    Rock,
}

/// A sparse octree of voxel chunks; a chunk holds `CHUNK_SIZE^3` voxels.
#[derive(Debug)]
pub enum VoxelTree {
    Parent(VoxelTreeParent),
    Chunk(Vec<VoxelType>),
}

#[derive(Debug)]
pub struct VoxelTreeParent {
    pub scale: u32,
    pub sub_cells: Vec<Option<Box<VoxelTreeParent>>>,
}

impl VoxelTree {
    pub fn new_chunk() -> (r: VoxelTree)
        ensures
            r matches VoxelTree::Chunk(c) && c@.len() == NB_VOXELS_PER_CHUNK && forall|i: int|
                0 <= i < c@.len() ==> c@[i] == VoxelType::Empty,
    {
        let mut voxels: Vec<VoxelType> = Vec::new();
        let mut i: usize = 0;
        while i < NB_VOXELS_PER_CHUNK
            invariant
                i <= NB_VOXELS_PER_CHUNK,
                voxels@.len() == i,
                forall|j: int| 0 <= j < i ==> voxels@[j] == VoxelType::Empty,
            decreases NB_VOXELS_PER_CHUNK - i,
        {
            voxels.push(VoxelType::Empty);
            i = i + 1;
        }
        VoxelTree::Chunk(voxels)
    }
}

/// A voxel body: its voxels, its own local matter tree, and its orientation.
#[derive(Debug)]
pub struct VoxelGridSpace {
    pub voxels: VoxelTree,
    pub local_space: MatterTree,
    pub orientation: Mat3,
}

impl VoxelGridSpace {
    pub fn new() -> (r: VoxelGridSpace)
        ensures
            r.voxels matches VoxelTree::Chunk(c) && c@.len() == NB_VOXELS_PER_CHUNK,
            r.local_space.wf(),
            crate::matter_tree::tree_ents(r.local_space).len() == 0,
            r.orientation.divider == 1,
    {
        VoxelGridSpace {
            voxels: VoxelTree::new_chunk(),
            local_space: MatterTree::new(),
            orientation: Mat3::identity(),
        }
    }
}

} // verus!
