//! The occupancy grid that sparse voxel octrees are built from.
use vstd::prelude::*;
use crate::voxel::{block_occupied, cells_from_voxels, cells_wf, listed, scan_block, voxels_within, Voxel};

verus! {

/// A dense cube of occupancy cells, indexed `data[x][y][z]`; read-only once
/// built.
pub struct VoxelGrid {
    pub data: Vec<Vec<Vec<bool>>>,
    pub size: usize,
}

impl VoxelGrid {
    pub open spec fn wf(&self) -> bool {
        cells_wf(self.data@, self.size as int)
    }

    /// The grid of edge `size` whose occupied cells are exactly those listed.
    pub fn new(size: usize, voxels: &[Voxel]) -> (r: Self)
        requires
            voxels_within(voxels@, size as int),
        ensures
            r.wf(),
            r.size == size,
            forall|a: int, b: int, c: int|
                0 <= a < size && 0 <= b < size && 0 <= c < size ==> (#[trigger] r.data@[a]@[b]@[c]
                    <==> listed(voxels@, voxels@.len() as int, a, b, c)),
    {
        let data = cells_from_voxels(size, voxels);
        assert forall|a: int, b: int, c: int|
            0 <= a < size && 0 <= b < size && 0 <= c < size implies (#[trigger] data@[a]@[b]@[c]
                <==> listed(voxels@, voxels@.len() as int, a, b, c)) by {
            assert(crate::voxel::cell(data@, a, b, c) == data@[a]@[b]@[c]);
        }
        VoxelGrid { data, size }
    }

    /// Whether any cell of the block of edge `size` at `(x, y, z)` is
    /// occupied; scans the block and stops at the first occupied cell.
    pub fn sample(&self, x: usize, y: usize, z: usize, size: usize) -> (r: bool)
        requires
            self.wf(),
            x + size <= self.size,
            y + size <= self.size,
            z + size <= self.size,
        ensures
            r == block_occupied(self.data@, x as int, y as int, z as int, size as int),
    {
        scan_block(&self.data, self.size, x, y, z, size)
    }
}

} // verus!
