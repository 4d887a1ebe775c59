use svo::svo::{child_idx, is_empty, is_leaf, SparseVoxelOctree};
use svo::traversal::{child_slot, highest_bit, hit_normal};
use svo::voxel::Voxel;
use svo::voxel_grid::VoxelGrid;

fn grid(size: usize, cells: &[(usize, usize, usize)]) -> VoxelGrid {
    let voxels: Vec<Voxel> = cells.iter().map(|&(x, y, z)| Voxel { x, y, z }).collect();
    VoxelGrid::new(size, &voxels)
}

fn leaves(svo: &SparseVoxelOctree) -> Vec<usize> {
    (0..svo.node_pool.len()).filter(|&i| !is_empty(&svo.node_pool[i]) && is_leaf(&svo.node_pool[i])).collect()
}

#[test]
fn single_voxel_at_origin() {
    let svo = SparseVoxelOctree::from(&grid(2, &[(0, 0, 0)]));
    assert_eq!(svo.node_pool.len(), 9);
    assert_eq!(svo.node_pool[0], [1, 0]);
    // octant 0 is the lower corner on every axis
    assert_eq!(svo.node_pool[1], [0x7fff_ffff, 0x000000]);
    for i in 2..9 {
        assert_eq!(svo.node_pool[i], [0x8000_0000, 0]);
    }
    assert_eq!(leaves(&svo), vec![1]);
    assert_eq!(svo.size_bytes(), 72);
}

#[test]
fn octant_bit_zero_is_upper_x() {
    let svo = SparseVoxelOctree::from(&grid(2, &[(1, 0, 0)]));
    assert_eq!(leaves(&svo), vec![2]);
    assert_eq!(svo.node_pool[2][1], 1);
    let svo = SparseVoxelOctree::from(&grid(2, &[(0, 1, 0)]));
    assert_eq!(leaves(&svo), vec![3]);
    let svo = SparseVoxelOctree::from(&grid(2, &[(0, 0, 1)]));
    assert_eq!(leaves(&svo), vec![5]);
}

#[test]
fn two_deep_octree() {
    let svo = SparseVoxelOctree::from(&grid(4, &[(3, 3, 3)]));
    assert_eq!(svo.node_pool.len(), 17);
    let leaf = leaves(&svo);
    assert_eq!(leaf.len(), 1);
    // upper octant (7) of the root tile, then upper octant of its tile
    assert!(!is_leaf(&svo.node_pool[8]));
    assert_eq!(child_idx(&svo.node_pool[8]), 9);
    assert_eq!(leaf[0], 16);
    assert_eq!(svo.node_pool[16][1], 0x030303);
}

#[test]
fn subtrees_follow_in_octant_order() {
    let svo = SparseVoxelOctree::from(&grid(4, &[(0, 0, 0), (3, 3, 3)]));
    assert_eq!(svo.node_pool.len(), 25);
    assert_eq!(child_idx(&svo.node_pool[1]), 9);
    assert_eq!(child_idx(&svo.node_pool[8]), 17);
    assert_eq!(leaves(&svo), vec![9, 24]);
}

#[test]
fn pool_len_counts_nodes() {
    let g = grid(4, &[(3, 3, 3)]);
    assert_eq!(SparseVoxelOctree::pool_len(&g, 100), Some(17));
    assert_eq!(SparseVoxelOctree::pool_len(&g, 17), Some(17));
    assert_eq!(SparseVoxelOctree::pool_len(&g, 16), None);
    let g = grid(4, &[(0, 0, 0), (3, 3, 3)]);
    assert_eq!(SparseVoxelOctree::pool_len(&g, 1000), Some(25));
    assert_eq!(SparseVoxelOctree::pool_len(&grid(256, &[(200, 3, 7)]), 1 << 30), Some(1 + 8 * 8));
}

#[test]
fn octree_colors_encode_position() {
    let svo = SparseVoxelOctree::from(&grid(4, &[(1, 2, 0)]));
    let leaf = leaves(&svo);
    assert_eq!(leaf.len(), 1);
    assert_eq!(svo.node_pool[leaf[0]][1], 1 | (2 << 8));
}

#[test]
fn empty_grid_octree() {
    let svo = SparseVoxelOctree::from(&grid(4, &[]));
    assert_eq!(svo.node_pool.len(), 9);
    assert!(leaves(&svo).is_empty());
}

#[test]
fn child_slot_mirrors_octant() {
    let svo = SparseVoxelOctree::from(&grid(2, &[(0, 0, 0)]));
    assert_eq!(child_slot(&svo.node_pool[0], 0, 7), 8);
    assert_eq!(child_slot(&svo.node_pool[0], 7, 7), 1);
    assert_eq!(child_slot(&svo.node_pool[0], 1, 6), 8);
}

#[test]
fn face_normals() {
    // ray along +x entering through the -x face
    assert_eq!(hit_normal(1, 1), (-1, 0, 0));
    // ray along -x entering through the +x face
    assert_eq!(hit_normal(0, 1), (1, 0, 0));
    assert_eq!(hit_normal(0, 2), (0, 1, 0));
    assert_eq!(hit_normal(0, 4), (0, 0, 1));
    assert_eq!(hit_normal(2, 2), (0, -1, 0));
    assert_eq!(hit_normal(7, 4), (0, 0, -1));
    assert_eq!(hit_normal(0, 3), (1, 0, 0));
    assert_eq!(hit_normal(1, 6), (0, 1, 0));
    assert_eq!(hit_normal(7, 0), (0, 0, 0));
}

#[test]
fn pop_scale_is_highest_bit() {
    assert_eq!(highest_bit(1), 0);
    assert_eq!(highest_bit(0b1000), 3);
    assert_eq!(highest_bit(0x0040_1234), 22);
    assert_eq!(highest_bit(u32::MAX), 31);
}
