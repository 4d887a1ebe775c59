//! The integer steps of the octree ray-marcher: which child slot a ray
//! visits, how far a POP climbs, and which face a hit lies on.
use vstd::prelude::*;
use vstd::std_specs::bits::{axiom_u32_leading_zeros, u32_leading_zeros};
use crate::svo::{child_idx, node_child, Node};

verus! {

/// Index in the pool of child `idx` of `parent`. The marcher counts `idx`
/// in a frame mirrored so that the ray runs towards -x, -y and -z;
/// `octant_mask` has the bit of each axis along which the ray in fact runs
/// towards +, and flips that axis back to find the stored slot.
pub fn child_slot(parent: &Node, idx: u32, octant_mask: u32) -> (r: usize)
    requires
        idx < 8,
        octant_mask < 8,
    ensures
        r == node_child(*parent) + (idx ^ octant_mask),
{
    let w = parent[0];
    assert((idx ^ octant_mask) < 8 && w & 0x3fff_ffff <= 0x3fff_ffff) by (bit_vector)
        requires
            idx < 8,
            octant_mask < 8,
    ;
    child_idx(parent) + (idx ^ octant_mask) as usize
}

proof fn lemma_top_bit(i: u32, r: u32)
    by (bit_vector)
    requires
        r < 32,
        (i >> r) & 1 != 0,
        i >> (r + 1) as u32 == 0,
    ensures
        i >> r == 1,
{
}

/// Position of the highest set bit of `bits`: the scale that a POP climbs
/// to.
pub fn highest_bit(bits: u32) -> (r: u32)
    requires
        bits != 0,
    ensures
        r < 32,
        bits >> r == 1,
{
    let lz = bits.leading_zeros();
    proof {
        axiom_u32_leading_zeros(bits);
        assert(lz == u32_leading_zeros(bits));
        lemma_top_bit(bits, (31 - lz) as u32);
    }
    31 - lz
}

/// Outward normal of the face through which a ray entered the voxel it
/// hit. `octant_mask` has the bit of each axis along which the ray runs in
/// the positive direction; `step_mask` has the bits of the axes that the
/// last step crossed. The first axis `a` of the step mask names the face: the
/// ray came in through the -a face where it runs towards +a, and through
/// the +a face otherwise. With no axis in the step mask (the ray started
/// inside the voxel) there is no face, and the normal is zero.
pub open spec fn normal_of(octant_mask: u32, step_mask: u32) -> (int, int, int) {
    if step_mask & 1 != 0 {
        (if octant_mask & 1 != 0 { -1 } else { 1 }, 0, 0)
    } else if step_mask & 2 != 0 {
        (0, if octant_mask & 2 != 0 { -1 } else { 1 }, 0)
    } else if step_mask & 4 != 0 {
        (0, 0, if octant_mask & 4 != 0 { -1 } else { 1 })
    } else {
        (0, 0, 0)
    }
}

/// The normal of the face that a ray hit (see `normal_of`).
pub fn hit_normal(octant_mask: u32, step_mask: u32) -> (r: (i32, i32, i32))
    ensures
        (r.0 as int, r.1 as int, r.2 as int) == normal_of(octant_mask, step_mask),
{
    if (step_mask & 1) != 0 {
        (if (octant_mask & 1) != 0 { -1 } else { 1 }, 0, 0)
    } else if (step_mask & 2) != 0 {
        (0, if (octant_mask & 2) != 0 { -1 } else { 1 }, 0)
    } else if (step_mask & 4) != 0 {
        (0, 0, if (octant_mask & 4) != 0 { -1 } else { 1 })
    } else {
        (0, 0, 0)
    }
}

} // verus!
